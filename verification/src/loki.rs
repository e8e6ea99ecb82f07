//! What is asked of Loki, and what is made of its answers.

use vstd::prelude::*;
use crate::text::{
    law_numerals_read_back, parse_i64, same_text, signed_decimal, signed_decimal_text, spelled_i64,
    trim_trailing_slashes, without_trailing_slashes,
};
use crate::time::{from_nanos, nanos_since_epoch, precedes, Timestamp, SECOND};

verus! {

broadcast use vstd::string::group_string_axioms;

/// Why a query gave no answer.
#[derive(Debug)]
pub enum LokiError {
    /// The request or its transport failed, for the given reason.
    Http(String),
    /// The server reported a status other than success, with an explanation.
    Status(String, String),
    /// The answer holds no data.
    BadResponse,
}

impl LokiError {
    /// The error in words.
    pub fn message(&self) -> (r: String)
        ensures
            r@ == (match *self {
                LokiError::Http(reason) => "HTTP error: "@ + reason@,
                LokiError::Status(status, detail) => "Loki returned status "@ + status@ + ": "@
                    + detail@,
                LokiError::BadResponse => "unexpected response shape"@,
            }),
    {
        match self {
            LokiError::Http(reason) => "HTTP error: ".to_owned().concat(reason.as_str()),
            LokiError::Status(status, detail) => "Loki returned status ".to_owned().concat(
                status.as_str(),
            ).concat(": ").concat(detail.as_str()),
            LokiError::BadResponse => "unexpected response shape".to_owned(),
        }
    }
}

/// A single log entry returned from Loki.
#[derive(Debug, Clone)]
pub struct LogEntry {
    pub timestamp: Timestamp,
    pub line: String,
}

/// An answer to a range query.
#[derive(Debug)]
pub struct QueryRangeResponse {
    pub status: String,
    pub data: Option<QueryRangeData>,
}

/// The data of an answer: the matching streams.
#[derive(Debug)]
pub struct QueryRangeData {
    pub result: Vec<Stream>,
}

/// The entries of one stream: timestamps, in nanoseconds since the Unix epoch,
/// and log lines.
#[derive(Debug)]
pub struct Stream {
    pub values: Vec<(String, String)>,
}

/// A request to send: an address and its query parameters.
#[derive(Debug)]
pub struct LokiRequest {
    pub url: String,
    pub params: Vec<(String, String)>,
}

/// How long a request may take, in seconds.
pub const REQUEST_TIMEOUT_SECS: u64 = 5;

/// A Loki server.
#[derive(Debug)]
pub struct LokiClient {
    base_url: String,
}

/// Pairs of texts as character sequences.
pub open spec fn pairs_text(v: Seq<(String, String)>) -> Seq<(Seq<char>, Seq<char>)> {
    v.map_values(|e: (String, String)| (e.0@, e.1@))
}

/// The entries of all streams, stream after stream.
pub open spec fn all_values(streams: Seq<Stream>) -> Seq<(Seq<char>, Seq<char>)>
    decreases streams.len(),
{
    if streams.len() == 0 {
        seq![]
    } else {
        all_values(streams.drop_last()) + pairs_text(streams.last().values@)
    }
}

/// The earliest of the entries whose timestamp can be read, and of several at
/// the same time the first.
pub open spec fn earliest(values: Seq<(Seq<char>, Seq<char>)>) -> Option<(i64, Seq<char>)>
    decreases values.len(),
{
    if values.len() == 0 {
        None
    } else {
        let before = earliest(values.drop_last());
        match (spelled_i64(values.last().0), before) {
            (None, _) => before,
            (Some(n), None) => Some((n, values.last().1)),
            (Some(n), Some((m, _))) => if n < m {
                Some((n, values.last().1))
            } else {
                before
            },
        }
    }
}

/// A bound of the time range in nanoseconds, `0` where it does not fit in 64
/// bits.
pub open spec fn range_bound(t: (int, int)) -> Seq<char> {
    signed_decimal(
        match nanos_since_epoch(t) {
            Some(n) => n as int,
            None => 0,
        },
    )
}

/// The parameters of a query for the first line in a time range.
pub open spec fn range_params(query: Seq<char>, start: (int, int), end: (int, int)) -> Seq<
    (Seq<char>, Seq<char>),
> {
    seq![
        ("query"@, query),
        ("start"@, range_bound(start)),
        ("end"@, range_bound(end)),
        ("limit"@, "1"@),
        ("direction"@, "forward"@),
    ]
}

/// Writes a bound of the time range.
fn range_bound_text(t: &Timestamp) -> (r: String)
    ensures
        r@ == range_bound(t@),
{
    let n: i64 = match t.epoch_nanos() {
        Some(n) => n,
        None => 0,
    };
    signed_decimal_text(n)
}

impl LokiClient {
    /// The address of the server, without slashes at its end.
    pub closed spec fn base_url(self) -> Seq<char> {
        self.base_url@
    }

    /// The server at the given address.
    pub fn new(base_url: &str) -> (r: LokiClient)
        ensures
            r.base_url() == without_trailing_slashes(base_url@),
    {
        LokiClient { base_url: trim_trailing_slashes(base_url) }
    }

    /// The request for the earliest log line that matches `query` in the time
    /// range from `start` to `end`.
    pub fn first_request(&self, query: &str, start: &Timestamp, end: &Timestamp) -> (r: LokiRequest)
        ensures
            r.url@ == self.base_url() + "/loki/api/v1/query_range"@,
            pairs_text(r.params@) == range_params(query@, start@, end@),
            r.params@.len() == 5,
            r.params@[0].1@ == query@,
            nanos_since_epoch(start@) is Some ==> spelled_i64(r.params@[1].1@) == nanos_since_epoch(
                start@,
            ),
            nanos_since_epoch(end@) is Some ==> spelled_i64(r.params@[2].1@) == nanos_since_epoch(
                end@,
            ),
    {
        let url = self.base_url.clone().concat("/loki/api/v1/query_range");
        let mut params: Vec<(String, String)> = Vec::new();
        params.push(("query".to_owned(), query.to_owned()));
        params.push(("start".to_owned(), range_bound_text(start)));
        params.push(("end".to_owned(), range_bound_text(end)));
        params.push(("limit".to_owned(), "1".to_owned()));
        params.push(("direction".to_owned(), "forward".to_owned()));
        proof {
            assert(pairs_text(params@) =~= range_params(query@, start@, end@));
            law_range_params(query@, start@, end@);
            assert(params@[1].1@ == pairs_text(params@)[1].1);
            assert(params@[2].1@ == pairs_text(params@)[2].1);
        }
        LokiRequest { url, params }
    }
}

/// Finds the earliest entry of all streams whose timestamp can be read.
pub fn earliest_entry(streams: &Vec<Stream>) -> (r: Option<LogEntry>)
    ensures
        match r {
            Some(entry) => earliest(all_values(streams@)) matches Some((n, line))
                && entry.timestamp@ == from_nanos(n as int) && entry.line@ == line,
            None => earliest(all_values(streams@)) is None,
        },
{
    let mut best: Option<(i64, String)> = None;
    let mut i: usize = 0;
    let ghost mut seen: Seq<(Seq<char>, Seq<char>)> = seq![];
    assert(all_values(streams@.take(0)) =~= seen);
    while i < streams.len()
        invariant
            i <= streams@.len(),
            seen == all_values(streams@.take(i as int)),
            match best {
                Some((n, line)) => earliest(seen) == Some((n, line@)),
                None => earliest(seen) is None,
            },
        decreases streams@.len() - i,
    {
        let values = &streams[i].values;
        let ghost texts = pairs_text(values@);
        let ghost before = seen;
        let mut j: usize = 0;
        assert(before + texts.take(0) =~= before);
        while j < values.len()
            invariant
                j <= values@.len(),
                texts == pairs_text(values@),
                match best {
                    Some((n, line)) => earliest(before + texts.take(j as int)) == Some((n, line@)),
                    None => earliest(before + texts.take(j as int)) is None,
                },
            decreases values@.len() - j,
        {
            let ghost upto = before + texts.take(j + 1);
            assert(upto.drop_last() =~= before + texts.take(j as int));
            assert(upto.last() == texts[j as int]);
            assert(texts[j as int] == (values@[j as int].0@, values@[j as int].1@));
            if let Some(n) = parse_i64(values[j].0.as_str()) {
                let earlier = match &best {
                    Some((m, _)) => n < *m,
                    None => true,
                };
                if earlier {
                    best = Some((n, values[j].1.clone()));
                }
            }
            j = j + 1;
        }
        proof {
            assert(texts.take(j as int) =~= texts);
            assert(streams@.take(i + 1).drop_last() =~= streams@.take(i as int));
            seen = before + texts;
        }
        i = i + 1;
    }
    assert(streams@.take(i as int) =~= streams@);
    match best {
        Some((n, line)) => Some(LogEntry { timestamp: Timestamp::from_epoch_nanos(n), line }),
        None => None,
    }
}

/// Reads an answer: the earliest entry, if there is one. An answer that does not
/// report success, or that holds no data, is an error.
pub fn first_entry(response: QueryRangeResponse) -> (r: Result<Option<LogEntry>, LokiError>)
    ensures
        response.status@ != "success"@ ==> (r matches Err(LokiError::Status(status, detail))
            && status@ == response.status@ && detail@ == "query did not succeed"@),
        response.status@ == "success"@ && response.data is None ==> r
            == Err::<Option<LogEntry>, LokiError>(LokiError::BadResponse),
        response.status@ == "success"@ && response.data is Some ==> (match earliest(
            all_values(response.data->Some_0.result@),
        ) {
            Some((n, line)) => r matches Ok(Some(entry)) && entry.timestamp@ == from_nanos(
                n as int,
            ) && entry.line@ == line,
            None => r == Ok::<Option<LogEntry>, LokiError>(None),
        }),
{
    if !same_text(response.status.as_str(), "success") {
        return Err(LokiError::Status(response.status, "query did not succeed".to_owned()));
    }
    match response.data {
        None => Err(LokiError::BadResponse),
        Some(data) => Ok(earliest_entry(&data.result)),
    }
}

/// Whether the entry at position `i` is the one to choose: its timestamp is `n`,
/// none lies before it, and of those at the same time it is the first.
pub open spec fn is_first_at(values: Seq<(Seq<char>, Seq<char>)>, i: int, n: i64) -> bool {
    &&& 0 <= i < values.len()
    &&& spelled_i64(values[i].0) == Some(n)
    &&& forall|j: int|
        #![trigger values[j]]
        0 <= j < values.len() ==> (spelled_i64(values[j].0) matches Some(m) ==> n <= m && (m == n
            ==> i <= j))
}

/// Whether the entry to choose has the timestamp `n` and the given line.
pub open spec fn is_chosen(values: Seq<(Seq<char>, Seq<char>)>, n: i64, line: Seq<char>) -> bool {
    exists|i: int| #[trigger] is_first_at(values, i, n) && values[i].1 == line
}

/// An entry is still the one to choose where a later one does not lie before it.
proof fn lemma_still_first(values: Seq<(Seq<char>, Seq<char>)>, i: int, n: i64)
    requires
        values.len() > 0,
        is_first_at(values.drop_last(), i, n),
        spelled_i64(values.last().0) matches Some(m) ==> n <= m,
    ensures
        is_first_at(values, i, n),
{
    let front = values.drop_last();
    assert forall|j: int|
        #![trigger values[j]]
        0 <= j < values.len() implies (spelled_i64(values[j].0) matches Some(m) ==> n <= m && (m == n
        ==> i <= j)) by {
        if j < front.len() {
            assert(front[j] == values[j]);
        }
    }
    assert(front[i] == values[i]);
}

/// The last entry is the one to choose where it lies before the best so far.
proof fn lemma_last_is_first(values: Seq<(Seq<char>, Seq<char>)>, i: int, m: i64, n: i64)
    requires
        values.len() > 0,
        is_first_at(values.drop_last(), i, m),
        spelled_i64(values.last().0) == Some(n),
        n < m,
    ensures
        is_first_at(values, values.len() - 1, n),
{
    let front = values.drop_last();
    assert forall|j: int|
        #![trigger values[j]]
        0 <= j < values.len() implies (spelled_i64(values[j].0) matches Some(k) ==> n <= k && (k == n
        ==> values.len() - 1 <= j)) by {
        if j < front.len() {
            assert(front[j] == values[j]);
        }
    }
}

/// The entry that is chosen has a readable timestamp, none lies before it, and
/// of those at the same time it is the first; there is none only where no
/// timestamp can be read.
pub proof fn law_earliest_entry(values: Seq<(Seq<char>, Seq<char>)>)
    ensures
        match earliest(values) {
            Some((n, line)) => is_chosen(values, n, line),
            None => forall|j: int|
                #![trigger values[j]]
                0 <= j < values.len() ==> spelled_i64(values[j].0) is None,
        },
    decreases values.len(),
{
    if values.len() > 0 {
        let front = values.drop_last();
        let last = values.len() - 1;
        law_earliest_entry(front);
        match earliest(front) {
            Some((m, line)) => {
                let i = choose|i: int| #[trigger] is_first_at(front, i, m) && front[i].1 == line;
                assert(values[i] == front[i]);
                let later = spelled_i64(values.last().0);
                if later matches Some(n) && n < m {
                    lemma_last_is_first(values, i, m, later->Some_0);
                    assert(is_chosen(values, later->Some_0, values[last].1));
                    assert(earliest(values) == Some((later->Some_0, values[last].1)));
                } else {
                    lemma_still_first(values, i, m);
                    assert(is_chosen(values, m, line));
                    assert(earliest(values) == Some((m, line)));
                }
            },
            None => {
                assert forall|j: int|
                    #![trigger values[j]]
                    0 <= j < last implies spelled_i64(values[j].0) is None by {
                    assert(front[j] == values[j]);
                }
                let only = spelled_i64(values.last().0);
                if only is Some {
                    assert(is_first_at(values, last, only->Some_0));
                    assert(earliest(values) == Some((only->Some_0, values[last].1)));
                } else {
                    assert(earliest(values) is None);
                }
            },
        }
    }
}

/// The request carries the query as it is, and for the bounds of its range, in
/// decimal, the nanoseconds from the epoch to the given instants wherever these
/// fit in 64 bits; it asks for the first line alone, from the start on.
pub proof fn law_range_params(query: Seq<char>, start: (int, int), end: (int, int))
    ensures
        range_params(query, start, end).len() == 5,
        range_params(query, start, end)[0] == ("query"@, query),
        range_params(query, start, end)[1].0 == "start"@,
        range_params(query, start, end)[2].0 == "end"@,
        range_params(query, start, end)[3] == ("limit"@, "1"@),
        range_params(query, start, end)[4] == ("direction"@, "forward"@),
        i64::MIN <= start.0 * SECOND + start.1 <= i64::MAX ==> spelled_i64(
            range_params(query, start, end)[1].1,
        ) == Some((start.0 * SECOND + start.1) as i64),
        i64::MIN <= end.0 * SECOND + end.1 <= i64::MAX ==> spelled_i64(
            range_params(query, start, end)[2].1,
        ) == Some((end.0 * SECOND + end.1) as i64),
        !(i64::MIN <= start.0 * SECOND + start.1 <= i64::MAX) ==> spelled_i64(
            range_params(query, start, end)[1].1,
        ) == Some(0i64),
        !(i64::MIN <= end.0 * SECOND + end.1 <= i64::MAX) ==> spelled_i64(
            range_params(query, start, end)[2].1,
        ) == Some(0i64),
{
    law_numerals_read_back(0);
    if let Some(n) = nanos_since_epoch(start) {
        law_numerals_read_back(n);
    }
    if let Some(n) = nanos_since_epoch(end) {
        law_numerals_read_back(n);
    }
}

/// Every instant of the window lies within the bounds that are sent, and none
/// outside it does.
pub proof fn law_window_is_sent(
    query: Seq<char>,
    start: (int, int),
    end: (int, int),
    t: (int, int),
)
    requires
        0 <= start.1 < SECOND,
        0 <= end.1 < SECOND,
        0 <= t.1 < SECOND,
        i64::MIN <= start.0 * SECOND + start.1 <= i64::MAX,
        i64::MIN <= end.0 * SECOND + end.1 <= i64::MAX,
    ensures
        ({
            let params = range_params(query, start, end);
            &&& spelled_i64(params[1].1) is Some
            &&& spelled_i64(params[2].1) is Some
            &&& !precedes(t, start) && !precedes(end, t) <==> spelled_i64(params[1].1)->Some_0 <= t.0
                * SECOND + t.1 <= spelled_i64(params[2].1)->Some_0
        }),
{
    law_range_params(query, start, end);
}

/// The values of all streams are those of each stream, and nothing else.
proof fn lemma_all_values(streams: Seq<Stream>)
    ensures
        forall|i: int, j: int|
            #![trigger streams[i].values@[j]]
            0 <= i < streams.len() && 0 <= j < streams[i].values@.len() ==> all_values(
                streams,
            ).contains((streams[i].values@[j].0@, streams[i].values@[j].1@)),
        forall|k: int|
            0 <= k < all_values(streams).len() ==> is_value_of(
                streams,
                #[trigger] all_values(streams)[k],
            ),
    decreases streams.len(),
{
    if streams.len() > 0 {
        let front = streams.drop_last();
        let last = streams.len() - 1;
        let a = all_values(front);
        let b = pairs_text(streams.last().values@);
        lemma_all_values(front);
        assert forall|i: int, j: int|
            #![trigger streams[i].values@[j]]
            0 <= i < streams.len() && 0 <= j < streams[i].values@.len() implies all_values(
            streams,
        ).contains((streams[i].values@[j].0@, streams[i].values@[j].1@)) by {
            let v = (streams[i].values@[j].0@, streams[i].values@[j].1@);
            if i < last {
                assert(front[i] == streams[i]);
                assert(front[i].values@[j] == streams[i].values@[j]);
                let k = choose|k: int| 0 <= k < a.len() && a[k] == v;
                assert((a + b)[k] == v);
            } else {
                assert(b[j] == v);
                assert((a + b)[a.len() + j] == v);
            }
        }
        assert forall|k: int| 0 <= k < all_values(streams).len() implies is_value_of(
            streams,
            #[trigger] all_values(streams)[k],
        ) by {
            let v = all_values(streams)[k];
            if k < a.len() {
                assert(v == a[k]);
                assert(is_value_of(front, a[k]));
                let (i, j) = choose|i: int, j: int|
                    #![trigger front[i].values@[j]]
                    0 <= i < front.len() && 0 <= j < front[i].values@.len()
                        && front[i].values@[j].0@ == v.0 && front[i].values@[j].1@ == v.1;
                assert(streams[i].values@[j] == front[i].values@[j]);
            } else {
                let j = k - a.len();
                assert(v == b[j]);
                assert(streams[last].values@[j].0@ == v.0);
            }
        }
    }
}

/// Whether a pair of a timestamp and a line is one of the values of some stream.
pub open spec fn is_value_of(streams: Seq<Stream>, v: (Seq<char>, Seq<char>)) -> bool {
    exists|i: int, j: int|
        #![trigger streams[i].values@[j]]
        0 <= i < streams.len() && 0 <= j < streams[i].values@.len() && streams[i].values@[j].0@
            == v.0 && streams[i].values@[j].1@ == v.1
}

/// The line that is taken from an answer is one of the values of its streams, with
/// its own timestamp, and no value of any stream that can be read lies before it.
/// None is taken only where no timestamp can be read.
pub proof fn law_first_line_of_all_streams(streams: Seq<Stream>)
    ensures
        match earliest(all_values(streams)) {
            Some((n, line)) => {
                &&& exists|i: int, j: int|
                    #![trigger streams[i].values@[j]]
                    0 <= i < streams.len() && 0 <= j < streams[i].values@.len() && spelled_i64(
                        streams[i].values@[j].0@,
                    ) == Some(n) && streams[i].values@[j].1@ == line
                &&& forall|i: int, j: int|
                    #![trigger streams[i].values@[j]]
                    0 <= i < streams.len() && 0 <= j < streams[i].values@.len() ==> (spelled_i64(
                        streams[i].values@[j].0@,
                    ) matches Some(m) ==> n <= m)
            },
            None => forall|i: int, j: int|
                #![trigger streams[i].values@[j]]
                0 <= i < streams.len() && 0 <= j < streams[i].values@.len() ==> spelled_i64(
                    streams[i].values@[j].0@,
                ) is None,
        },
{
    let values = all_values(streams);
    lemma_all_values(streams);
    law_earliest_entry(values);
    match earliest(values) {
        Some((n, line)) => {
            let k = choose|k: int| #[trigger] is_first_at(values, k, n) && values[k].1 == line;
            assert(is_value_of(streams, values[k]));
            assert forall|i: int, j: int|
                #![trigger streams[i].values@[j]]
                0 <= i < streams.len() && 0 <= j < streams[i].values@.len() implies (spelled_i64(
                streams[i].values@[j].0@,
            ) matches Some(m) ==> n <= m) by {
                let v = (streams[i].values@[j].0@, streams[i].values@[j].1@);
                let x = choose|x: int| 0 <= x < values.len() && values[x] == v;
                assert(values[x] == v);
            }
        },
        None => {
            assert forall|i: int, j: int|
                #![trigger streams[i].values@[j]]
                0 <= i < streams.len() && 0 <= j < streams[i].values@.len() implies spelled_i64(
                streams[i].values@[j].0@,
            ) is None by {
                let v = (streams[i].values@[j].0@, streams[i].values@[j].1@);
                let x = choose|x: int| 0 <= x < values.len() && values[x] == v;
                assert(values[x] == v);
            }
        },
    }
}

/// The entry that is taken has a timestamp that can be read, none that can be read
/// lies before it, and of those at the same time it is the first.
pub proof fn law_earliest(values: Seq<(Seq<char>, Seq<char>)>)
    ensures
        match earliest(values) {
            Some((n, line)) => exists|i: int|
                #![trigger values[i]]
                0 <= i < values.len() && spelled_i64(values[i].0) == Some(n) && values[i].1 == line && (
                forall|j: int|
                    #![trigger values[j]]
                    0 <= j < values.len() ==> (spelled_i64(values[j].0) matches Some(m) ==> if j < i {
                        n < m
                    } else {
                        n <= m
                    })),
            None => forall|j: int|
                #![trigger values[j]]
                0 <= j < values.len() ==> spelled_i64(values[j].0) is None,
        },
{
    law_earliest_entry(values);
    if let Some((n, line)) = earliest(values) {
        let i = choose|i: int| #[trigger] is_first_at(values, i, n) && values[i].1 == line;
        assert(spelled_i64(values[i].0) == Some(n));
    }
}

/// The entries of streams stand one stream behind the other, each with its
/// entries in order.
pub proof fn law_all_values(a: Seq<Stream>, b: Seq<Stream>, s: Stream)
    ensures
        all_values(a + b) == all_values(a) + all_values(b),
        all_values(Seq::empty()).len() == 0,
        all_values(seq![s]).len() == s.values@.len(),
        forall|j: int|
            0 <= j < s.values@.len() ==> #[trigger] all_values(seq![s])[j] == (
                s.values@[j].0@,
                s.values@[j].1@,
            ),
    decreases b.len(),
{
    assert(seq![s].drop_last() =~= Seq::<Stream>::empty());
    assert(all_values(Seq::<Stream>::empty()).len() == 0);
    assert(seq![s].last() == s);
    assert(all_values(seq![s]) =~= pairs_text(s.values@));
    if b.len() == 0 {
        assert(a + b =~= a);
        assert(all_values(a) + all_values(b) =~= all_values(a));
    } else {
        law_all_values(a, b.drop_last(), s);
        assert((a + b).drop_last() =~= a + b.drop_last());
        assert(all_values(a) + (all_values(b.drop_last()) + pairs_text(b.last().values@)) =~= (
        all_values(a) + all_values(b.drop_last())) + pairs_text(b.last().values@));
    }
}

/// A bound that does not fit in 64 bits is sent as zero.
pub proof fn law_far_bounds(t: (int, int))
    requires
        !(i64::MIN <= t.0 * SECOND + t.1 <= i64::MAX),
    ensures
        range_bound(t) == seq!['0'],
{
    assert(signed_decimal(0) =~= seq!['0']);
}

} // verus!
