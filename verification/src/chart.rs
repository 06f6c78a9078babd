//! One symbol's chart: the rows read from a `v8/chart` response turned into a [`Quote`],
//! and the slices of history the pages draw.
//!
//! Prices and volumes are carried as an opaque number type `N`: nothing here computes with
//! them, it only decides which of them survive and where each one goes.
use vstd::prelude::*;
use crate::dates::{iso_date, iso_date_of};
use crate::symbols::{preset_name, preset_name_of};
use crate::text::{extend_chars, owned, string_of};

verus! {

/// A fetch or parse failure, with the message the detail page shows.
#[derive(Debug)]
pub struct QuoteError(pub String);

/// One tracked instrument's processed data: everything the pages render.
#[derive(Clone, Debug, PartialEq)]
pub struct Quote<N> {
    pub symbol: String,
    pub name: String,
    /// Daily closes, oldest to newest.
    pub closes: Vec<N>,
    /// Daily volumes, aligned with `closes`.
    pub volumes: Vec<N>,
    /// ISO dates aligned with `closes`.
    pub dates: Vec<String>,
    pub last: N,
    pub prev_close: N,
    pub open: N,
    pub high: N,
    pub low: N,
    pub volume: N,
    pub mock: bool,
}

/// A [`Quote`] as values.
pub struct QuoteModel<N> {
    pub symbol: Seq<char>,
    pub name: Seq<char>,
    pub closes: Seq<N>,
    pub volumes: Seq<N>,
    pub dates: Seq<Seq<char>>,
    pub last: N,
    pub prev_close: N,
    pub open: N,
    pub high: N,
    pub low: N,
    pub volume: N,
    pub mock: bool,
}

impl<N> View for Quote<N> {
    type V = QuoteModel<N>;

    open spec fn view(&self) -> QuoteModel<N> {
        QuoteModel {
            symbol: self.symbol@,
            name: self.name@,
            closes: self.closes@,
            volumes: self.volumes@,
            dates: self.dates@.map_values(|s: String| s@),
            last: self.last,
            prev_close: self.prev_close,
            open: self.open,
            high: self.high,
            low: self.low,
            volume: self.volume,
            mock: self.mock,
        }
    }
}

/// What the parser reads from `chart.result[0]`: the `meta` fields, the `timestamp` array,
/// and the `open/high/low/close/volume` arrays of `indicators.quote[0]`. A missing field is
/// `None`, a missing array empty, and an array entry that is not a number (Yahoo's `null` for
/// a session without data) `None`.
#[derive(Debug)]
pub struct ChartResult<N> {
    pub short_name: Option<String>,
    pub long_name: Option<String>,
    pub market_price: Option<N>,
    pub previous_close: Option<N>,
    pub day_high: Option<N>,
    pub day_low: Option<N>,
    pub day_volume: Option<N>,
    pub stamps: Vec<Option<i64>>,
    pub opens: Vec<Option<N>>,
    pub highs: Vec<Option<N>>,
    pub lows: Vec<Option<N>>,
    pub closes: Vec<Option<N>>,
    pub volumes: Vec<Option<N>>,
}

/// A `v8/chart` response: the `chart.error.description` text if the service reported one,
/// and `chart.result[0]` if there is one.
#[derive(Debug)]
pub struct ChartDoc<N> {
    pub error: Option<String>,
    pub result: Option<ChartResult<N>>,
}

/// Entry `i` of `v`, or `None` past its end.
pub open spec fn entry<N>(v: Seq<Option<N>>, i: int) -> Option<N> {
    if 0 <= i < v.len() {
        v[i]
    } else {
        None
    }
}

pub open spec fn or_else<N>(o: Option<N>, d: N) -> N {
    match o {
        Some(x) => x,
        None => d,
    }
}

/// Does row `i` survive: a stamp that is an integer and a close that is a number?
pub open spec fn keeps_row<N>(r: ChartResult<N>, i: int) -> bool {
    0 <= i < r.stamps@.len() && r.stamps@[i] is Some && entry(r.closes@, i) is Some
}

/// The rows among the first `n` that survive, in order.
pub open spec fn kept_rows<N>(r: ChartResult<N>, n: int) -> Seq<int>
    decreases n,
{
    if n <= 0 {
        Seq::empty()
    } else {
        kept_rows(r, n - 1) + (if keeps_row(r, n - 1) {
            seq![n - 1]
        } else {
            Seq::empty()
        })
    }
}

/// Every surviving row, in order.
pub open spec fn rows<N>(r: ChartResult<N>) -> Seq<int> {
    kept_rows(r, r.stamps@.len() as int)
}

/// The display name: `shortName`, else `longName`, unless the one found is empty; then the
/// suggestion catalog's name for the symbol.
pub open spec fn display_name<N>(r: ChartResult<N>, symbol: Seq<char>) -> Seq<char> {
    let found = match r.short_name {
        Some(s) => Some(s@),
        None => match r.long_name {
            Some(s) => Some(s@),
            None => None,
        },
    };
    match found {
        Some(s) => if s.len() > 0 {
            s
        } else {
            preset_name_of(symbol)
        },
        None => preset_name_of(symbol),
    }
}

/// The quote made of the surviving rows of `r`.
pub open spec fn quote_of<N>(r: ChartResult<N>, symbol: Seq<char>, zero: N) -> QuoteModel<N> {
    let ks = rows(r);
    let closes = Seq::new(ks.len(), |j: int| entry(r.closes@, ks[j])->0);
    let volumes = Seq::new(ks.len(), |j: int| or_else(entry(r.volumes@, ks[j]), zero));
    let dates = Seq::new(ks.len(), |j: int| iso_date_of(r.stamps@[ks[j]]->0 as int));
    let last_row = ks.last();
    let last = or_else(r.market_price, closes.last());
    QuoteModel {
        symbol,
        name: display_name(r, symbol),
        closes,
        volumes,
        dates,
        last,
        prev_close: if closes.len() >= 2 {
            closes[closes.len() - 2]
        } else {
            or_else(r.previous_close, last)
        },
        open: or_else(entry(r.opens@, last_row), zero),
        high: or_else(r.day_high, or_else(entry(r.highs@, last_row), zero)),
        low: or_else(r.day_low, or_else(entry(r.lows@, last_row), zero)),
        volume: or_else(r.day_volume, or_else(entry(r.volumes@, last_row), zero)),
        mock: false,
    }
}

/// The message of a symbol that answered without data.
pub open spec fn no_data(symbol: Seq<char>) -> Seq<char> {
    symbol + ": no data (unknown symbol?)"@
}

/// What a response comes to: the quote, or the message of the failure. A body that is not a
/// chart document, a service error, a missing result and a result without one usable row
/// are each an error rather than an empty chart.
pub open spec fn chart_outcome<N>(
    doc: Result<ChartDoc<N>, String>,
    symbol: Seq<char>,
    zero: N,
) -> Result<QuoteModel<N>, Seq<char>> {
    match doc {
        Err(detail) => Err(symbol + ": malformed response ("@ + detail@ + ")"@),
        Ok(d) => match d.error {
            Some(desc) => Err(symbol + ": "@ + desc@),
            None => match d.result {
                None => Err(no_data(symbol)),
                Some(r) => if rows(r).len() == 0 {
                    Err(no_data(symbol))
                } else {
                    Ok(quote_of(r, symbol, zero))
                },
            },
        },
    }
}

/// The outcome of a parse, as values.
pub open spec fn outcome_view<N>(r: Result<Quote<N>, QuoteError>) -> Result<QuoteModel<N>, Seq<char>> {
    match r {
        Ok(q) => Ok(q@),
        Err(e) => Err(e.0@),
    }
}

fn message(symbol: &str, middle: &str, detail: &str, end: &str) -> (e: QuoteError)
    ensures
        e.0@ == symbol@ + middle@ + detail@ + end@,
{
    let mut v: Vec<char> = Vec::new();
    extend_chars(&mut v, symbol);
    extend_chars(&mut v, middle);
    extend_chars(&mut v, detail);
    extend_chars(&mut v, end);
    assert(v@ =~= symbol@ + middle@ + detail@ + end@);
    QuoteError(string_of(v.as_slice()))
}

fn entry_at<N: Copy>(v: &Vec<Option<N>>, i: usize) -> (r: Option<N>)
    ensures
        r == entry(v@, i as int),
{
    if i < v.len() {
        v[i]
    } else {
        None
    }
}

fn value_or<N: Copy>(o: Option<N>, d: N) -> (r: N)
    ensures
        r == or_else(o, d),
{
    match o {
        Some(x) => x,
        None => d,
    }
}

/// The display name for `symbol` from what the response carries.
fn pick_name<N>(r: &ChartResult<N>, symbol: &str) -> (n: String)
    ensures
        n@ == display_name(*r, symbol@),
{
    let found: Option<&String> = match &r.short_name {
        Some(s) => Some(s),
        None => match &r.long_name {
            Some(s) => Some(s),
            None => None,
        },
    };
    match found {
        Some(s) => if !s.as_str().is_empty() {
            s.clone()
        } else {
            owned(preset_name(symbol))
        },
        None => owned(preset_name(symbol)),
    }
}

/// `chart.result[0]` → a [`Quote`]: rows are kept only where the close is a number and the
/// stamp an integer, and every array is filtered through the same index, so closes, volumes
/// and dates stay aligned. The day's own numbers come from `meta` when present and fall back
/// to the newest kept bar; `zero` stands in for a volume or bar value the response lacks.
pub fn parse_chart<N: Copy>(doc: Result<ChartDoc<N>, String>, symbol: &str, zero: N) -> (r: Result<
    Quote<N>,
    QuoteError,
>)
    ensures
        outcome_view(r) == chart_outcome(doc, symbol@, zero),
{
    proof {
        reveal_strlit("");
    }
    let d = match doc {
        Err(detail) => {
            return Err(message(symbol, ": malformed response (", detail.as_str(), ")"));
        },
        Ok(d) => d,
    };
    if let Some(desc) = &d.error {
        return Err(message(symbol, ": ", desc.as_str(), ""));
    }
    let res = match &d.result {
        None => {
            return Err(message(symbol, ": no data (unknown symbol?)", "", ""));
        },
        Some(res) => res,
    };
    let ghost rr = *res;
    let mut closes: Vec<N> = Vec::new();
    let mut volumes: Vec<N> = Vec::new();
    let mut dates: Vec<String> = Vec::new();
    let mut last_row: usize = 0;
    let n = res.stamps.len();
    let ghost mut ks: Seq<int> = Seq::empty();
    for i in 0..n
        invariant
            rr == *res,
            n == res.stamps@.len(),
            ks == kept_rows(rr, i as int),
            closes@.len() == ks.len(),
            volumes@.len() == ks.len(),
            dates@.len() == ks.len(),
            forall|j: int| 0 <= j < ks.len() ==> closes@[j] == entry(rr.closes@, #[trigger] ks[j])->0,
            forall|j: int| 0 <= j < ks.len() ==> volumes@[j] == or_else(entry(rr.volumes@, #[trigger] ks[j]), zero),
            forall|j: int| 0 <= j < ks.len() ==> dates@[j]@ == iso_date_of(rr.stamps@[#[trigger] ks[j]]->0 as int),
            ks.len() > 0 ==> last_row == ks.last(),
    {
        let c = entry_at(&res.closes, i);
        let ghost before = ks;
        match c {
            Some(close) => match res.stamps[i] {
                Some(secs) => {
                    closes.push(close);
                    volumes.push(value_or(entry_at(&res.volumes, i), zero));
                    dates.push(iso_date(secs));
                    last_row = i;
                    proof {
                        ks = ks.push(i as int);
                    }
                },
                None => {},
            },
            None => {},
        }
        assert(kept_rows(rr, i + 1) == before + (if keeps_row(rr, i as int) {
            seq![i as int]
        } else {
            Seq::<int>::empty()
        }));
        assert(ks =~= kept_rows(rr, i + 1));
    }
    if closes.len() == 0 {
        return Err(message(symbol, ": no data (unknown symbol?)", "", ""));
    }
    let nc = closes.len();
    let last = value_or(res.market_price, closes[nc - 1]);
    let prev_close = if nc >= 2 {
        closes[nc - 2]
    } else {
        value_or(res.previous_close, last)
    };
    let name = pick_name(res, symbol);
    let open = value_or(entry_at(&res.opens, last_row), zero);
    let high = value_or(res.day_high, value_or(entry_at(&res.highs, last_row), zero));
    let low = value_or(res.day_low, value_or(entry_at(&res.lows, last_row), zero));
    let volume = value_or(res.day_volume, value_or(entry_at(&res.volumes, last_row), zero));
    let q = Quote {
        symbol: owned(symbol),
        name,
        closes,
        volumes,
        dates,
        last,
        prev_close,
        open,
        high,
        low,
        volume,
        mock: false,
    };
    proof {
        let m = quote_of(rr, symbol@, zero);
        assert(rows(rr) == ks);
        assert(q@.closes =~= m.closes);
        assert(q@.volumes =~= m.volumes);
        assert(q@.dates =~= m.dates);
        assert(q@ == m);
    }
    Ok(q)
}

/// How many of `len` entries the last `n` of them are.
pub open spec fn tail_len(len: int, n: int) -> int {
    if n < len {
        n
    } else {
        len
    }
}

/// The last `n` entries of `v`, or all of it when it is shorter.
pub fn tail<T>(v: &[T], n: usize) -> (r: &[T])
    ensures
        r@ == v@.skip(v@.len() - tail_len(v@.len() as int, n as int)),
{
    let start = v.len().saturating_sub(n);
    let r = &v[start..v.len()];
    assert(r@ =~= v@.skip(v@.len() - tail_len(v@.len() as int, n as int)));
    r
}

/// The closes in view over `days` sessions and the dates aligned with them, or nothing when
/// there is too little to draw a line through. The dates are the last of `dates`, as many
/// as there are closes in view.
pub fn window<'a, N>(closes: &'a [N], dates: &'a [String], days: usize) -> (r: Option<(&'a [N], &'a [String])>)
    requires
        tail_len(closes@.len() as int, days as int) >= 2 ==> dates@.len() >= tail_len(closes@.len() as int, days as int),
    ensures
        ({
            let k = tail_len(closes@.len() as int, days as int);
            match r {
                None => k < 2,
                Some((c, d)) => k >= 2 && c@ == closes@.skip(closes@.len() - k) && d@ == dates@.skip(dates@.len() - k),
            }
        }),
{
    let c = tail(closes, days);
    if c.len() < 2 {
        return None;
    }
    let d = &dates[dates.len() - c.len()..dates.len()];
    assert(d@ =~= dates@.skip(dates@.len() - c@.len()));
    Some((c, d))
}

/// The sessions each range-picker slice shows: 1M, 3M, 6M, 1Y and everything the source has.
pub open spec fn range_days_of(ix: int) -> int {
    if ix == 0 {
        22
    } else if ix == 1 {
        66
    } else if ix == 2 {
        132
    } else if ix == 3 {
        252
    } else {
        usize::MAX as int
    }
}

/// The trading days the range picker at index `ix` shows (the last slice for any index past
/// the end).
pub fn range_days(ix: usize) -> (r: usize)
    ensures
        r == range_days_of(ix as int),
{
    if ix == 0 {
        22
    } else if ix == 1 {
        66
    } else if ix == 2 {
        132
    } else if ix == 3 {
        252
    } else {
        usize::MAX
    }
}

/// Whatever a response holds, a chart that parses has its history aligned: as many volumes
/// and dates as closes, at least one of each, every close the close of a bar that had one,
/// and every date the date of that bar's stamp.
pub proof fn lemma_parsed_rows_aligned<N>(doc: Result<ChartDoc<N>, String>, symbol: Seq<char>, zero: N)
    requires
        chart_outcome(doc, symbol, zero) is Ok,
    ensures
        ({
            let q = chart_outcome(doc, symbol, zero)->Ok_0;
            let r = doc->Ok_0.result->0;
            &&& q.closes.len() > 0
            &&& q.closes.len() == q.volumes.len()
            &&& q.closes.len() == q.dates.len()
            &&& forall|j: int| 0 <= j < q.closes.len() ==> {
                let k = #[trigger] rows(r)[j];
                &&& r.stamps@[k] is Some
                &&& entry(r.closes@, k) == Some(q.closes[j])
                &&& q.dates[j] == iso_date_of(r.stamps@[k]->0 as int)
            }
        }),
{
    let r = doc->Ok_0.result->0;
    lemma_kept_rows_keep(r, r.stamps@.len() as int);
}

proof fn lemma_kept_rows_keep<N>(r: ChartResult<N>, n: int)
    ensures
        forall|j: int| 0 <= j < kept_rows(r, n).len() ==> keeps_row(r, #[trigger] kept_rows(r, n)[j]),
    decreases n,
{
    if n > 0 {
        lemma_kept_rows_keep(r, n - 1);
        let prev = kept_rows(r, n - 1);
        assert forall|j: int| 0 <= j < kept_rows(r, n).len() implies keeps_row(r, #[trigger] kept_rows(r, n)[j]) by {
            if j < prev.len() {
                assert(kept_rows(r, n)[j] == prev[j]);
            }
        }
    }
}


/// The newest of the first `n` rows that survive is the last one kept, and no row after it
/// among the first `n` survives.
proof fn lemma_kept_rows_last<N>(r: ChartResult<N>, n: int)
    ensures
        kept_rows(r, n).len() > 0 ==> {
            let k = kept_rows(r, n).last();
            &&& keeps_row(r, k)
            &&& k < n
            &&& forall|i: int| k < i < n ==> !keeps_row(r, i)
        },
        kept_rows(r, n).len() == 0 ==> forall|i: int| 0 <= i < n ==> !keeps_row(r, i),
    decreases n,
{
    if n > 0 {
        lemma_kept_rows_last(r, n - 1);
        if !keeps_row(r, n - 1) {
            assert(kept_rows(r, n) =~= kept_rows(r, n - 1));
        }
    }
}

/// The day's numbers come from the newest bar that survives: when a chart parses, some row `k`
/// has a stamp and a close, no later row has both, the last close is that row's close (unless
/// `meta` gives the price), and the open is that row's open, the high, low and volume that row's
/// whenever `meta` lacks them; the rows after `k`, dropped for want of data, count for nothing.
pub proof fn lemma_day_numbers_from_newest_kept_bar<N>(
    doc: Result<ChartDoc<N>, String>,
    symbol: Seq<char>,
    zero: N,
)
    requires
        chart_outcome(doc, symbol, zero) is Ok,
    ensures
        ({
            let q = chart_outcome(doc, symbol, zero)->Ok_0;
            let r = doc->Ok_0.result->0;
            exists|k: int|
                {
                    &&& 0 <= k < r.stamps@.len()
                    &&& r.stamps@[k] is Some
                    &&& k < r.closes@.len() && r.closes@[k] is Some
                    &&& forall|i: int|
                        k < i < r.stamps@.len() ==> r.stamps@[i] is None || i >= r.closes@.len()
                            || r.closes@[i] is None
                    &&& q.closes.last() == r.closes@[k]->0
                    &&& r.market_price is None ==> q.last == r.closes@[k]->0
                    &&& q.open == (if k < r.opens@.len() && r.opens@[k] is Some {
                        r.opens@[k]->0
                    } else {
                        zero
                    })
                    &&& r.day_high is None ==> q.high == (if k < r.highs@.len() && r.highs@[k] is Some {
                        r.highs@[k]->0
                    } else {
                        zero
                    })
                    &&& r.day_low is None ==> q.low == (if k < r.lows@.len() && r.lows@[k] is Some {
                        r.lows@[k]->0
                    } else {
                        zero
                    })
                    &&& r.day_volume is None ==> q.volume == (if k < r.volumes@.len()
                        && r.volumes@[k] is Some {
                        r.volumes@[k]->0
                    } else {
                        zero
                    })
                }
        }),
{
    let r = doc->Ok_0.result->0;
    let q = chart_outcome(doc, symbol, zero)->Ok_0;
    lemma_kept_rows_last(r, r.stamps@.len() as int);
    let k = rows(r).last();
    assert forall|i: int| k < i < r.stamps@.len() implies r.stamps@[i] is None || i >= r.closes@.len()
        || r.closes@[i] is None by {
        assert(!keeps_row(r, i));
    }
    assert(q.closes.last() == r.closes@[k]->0);
}


/// The range picker's slices widen strictly, one month, three, six, a year of sessions, then
/// everything: 22, 66, 132 and 252 sessions, and the last slice at least any history's length.
pub proof fn lemma_ranges_widen(ix: int)
    ensures
        0 <= ix < 4 ==> range_days_of(ix) < range_days_of(ix + 1),
        range_days_of(0) == 22 && range_days_of(1) == 66 && range_days_of(2) == 132
            && range_days_of(3) == 252,
        ix >= 4 ==> range_days_of(ix) == usize::MAX,
{
}

} // verus!
