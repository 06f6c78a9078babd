//! Tickers: what the user typed turned into a Yahoo ticker, lists saved by older builds
//! rewritten, display names for the suggested symbols, the ticker escaped for a url, and the
//! watchlist's comma-joined stored form.
use vstd::prelude::*;
use crate::text::{
    chars_of, extend_chars, is_white, lower_ascii, lower_chars, owned, same_chars, str_eq,
    string_of, trim, trim_chars, trim_end, trim_start, upper_ascii, upper_char, upper_chars,
};

verus! {

/// The characters of every string in `v`.
pub open spec fn views(v: Seq<String>) -> Seq<Seq<char>> {
    v.map_values(|s: String| s@)
}

/// A watchlist entry saved under the previous provider's tickers, in Yahoo's spelling;
/// anything already in Yahoo's spelling is itself.
pub open spec fn migrated(s: Seq<char>) -> Seq<char> {
    if s == "XAUUSD"@ {
        "GC=F"@
    } else if s == "XAGUSD"@ {
        "SI=F"@
    } else if s == "CL.F"@ {
        "CL=F"@
    } else if s == "EURUSD"@ {
        "EURUSD=X"@
    } else if s.len() >= 3 && s.skip(s.len() - 3) == ".US"@ {
        s.take(s.len() - 3)
    } else {
        s
    }
}

/// Rewrite a watchlist entry saved by a build that used the previous provider's tickers.
pub fn migrate_symbol(symbol: &str) -> (r: String)
    ensures
        r@ == migrated(symbol@),
{
    if str_eq(symbol, "XAUUSD") {
        return owned("GC=F");
    }
    if str_eq(symbol, "XAGUSD") {
        return owned("SI=F");
    }
    if str_eq(symbol, "CL.F") {
        return owned("CL=F");
    }
    if str_eq(symbol, "EURUSD") {
        return owned("EURUSD=X");
    }
    let v = chars_of(symbol);
    let n = v.len();
    proof {
        reveal_strlit(".US");
    }
    if n >= 3 && v[n - 3] == '.' && v[n - 2] == 'U' && v[n - 1] == 'S' {
        assert(v@.skip(n - 3) =~= ".US"@);
        let base = vec_prefix(&v, n - 3);
        string_of(base.as_slice())
    } else {
        if n >= 3 {
            assert(v@.skip(n - 3) != ".US"@) by {
                if v@.skip(n - 3) == ".US"@ {
                    assert(v@.skip(n - 3)[0] == '.');
                    assert(v@.skip(n - 3)[1] == 'U');
                    assert(v@.skip(n - 3)[2] == 'S');
                }
            }
        }
        owned(symbol)
    }
}

/// The first `n` characters of `v`.
fn vec_prefix(v: &Vec<char>, n: usize) -> (r: Vec<char>)
    requires
        n <= v.len(),
    ensures
        r@ == v@.take(n as int),
{
    let mut r: Vec<char> = Vec::new();
    for i in 0..n
        invariant
            n <= v.len(),
            r@ == v@.take(i as int),
    {
        r.push(v[i]);
        assert(r@ =~= v@.take(i + 1));
    }
    r
}

/// The display name of a suggested symbol; any other symbol is its own name.
pub open spec fn preset_name_of(s: Seq<char>) -> Seq<char> {
    if s == "AAPL"@ {
        "Apple Inc."@
    } else if s == "MSFT"@ {
        "Microsoft Corp."@
    } else if s == "NVDA"@ {
        "NVIDIA Corp."@
    } else if s == "TSLA"@ {
        "Tesla Inc."@
    } else if s == "SPY"@ {
        "SPDR S&P 500 ETF"@
    } else if s == "GOOG"@ {
        "Alphabet Inc."@
    } else if s == "AMZN"@ {
        "Amazon.com Inc."@
    } else if s == "META"@ {
        "Meta Platforms Inc."@
    } else if s == "GC=F"@ {
        "Gold Futures"@
    } else if s == "SI=F"@ {
        "Silver Futures"@
    } else if s == "CL=F"@ {
        "Crude Oil WTI"@
    } else if s == "EURUSD=X"@ {
        "Euro / US Dollar"@
    } else {
        s
    }
}

/// The display name of a suggested symbol, or the symbol itself.
pub fn preset_name(symbol: &str) -> (r: &str)
    ensures
        r@ == preset_name_of(symbol@),
{
    if str_eq(symbol, "AAPL") {
        "Apple Inc."
    } else if str_eq(symbol, "MSFT") {
        "Microsoft Corp."
    } else if str_eq(symbol, "NVDA") {
        "NVIDIA Corp."
    } else if str_eq(symbol, "TSLA") {
        "Tesla Inc."
    } else if str_eq(symbol, "SPY") {
        "SPDR S&P 500 ETF"
    } else if str_eq(symbol, "GOOG") {
        "Alphabet Inc."
    } else if str_eq(symbol, "AMZN") {
        "Amazon.com Inc."
    } else if str_eq(symbol, "META") {
        "Meta Platforms Inc."
    } else if str_eq(symbol, "GC=F") {
        "Gold Futures"
    } else if str_eq(symbol, "SI=F") {
        "Silver Futures"
    } else if str_eq(symbol, "CL=F") {
        "Crude Oil WTI"
    } else if str_eq(symbol, "EURUSD=X") {
        "Euro / US Dollar"
    } else {
        symbol
    }
}

/// The symbols the manage page offers, in the picker's order.
pub open spec fn preset_list() -> Seq<Seq<char>> {
    seq![
        "AAPL"@, "MSFT"@, "NVDA"@, "TSLA"@, "GOOG"@, "AMZN"@, "META"@, "SPY"@, "GC=F"@,
        "SI=F"@, "CL=F"@, "EURUSD=X"@,
    ]
}

/// The symbols the manage page offers (a superset of the defaults).
pub fn presets() -> (r: Vec<String>)
    ensures
        views(r@) == preset_list(),
{
    let r = vec![
        owned("AAPL"), owned("MSFT"), owned("NVDA"), owned("TSLA"), owned("GOOG"),
        owned("AMZN"), owned("META"), owned("SPY"), owned("GC=F"), owned("SI=F"),
        owned("CL=F"), owned("EURUSD=X"),
    ];
    assert(views(r@) =~= preset_list());
    r
}

/// The suggestion at picker index `ix`, the last one for an index past the end.
pub fn preset_at(ix: usize) -> (r: String)
    ensures
        r@ == preset_list()[if ix < 12 { ix as int } else { 11 }],
{
    let all = presets();
    let i = if ix < 12 { ix } else { 11 };
    assert(preset_list().len() == 12);
    assert(all@.len() == views(all@).len());
    assert(views(all@)[i as int] == all@[i as int]@);
    all[i].clone()
}

/// What a fresh install tracks.
pub open spec fn default_list() -> Seq<Seq<char>> {
    seq!["AAPL"@, "MSFT"@, "NVDA"@, "SPY"@, "GC=F"@, "CL=F"@]
}

/// The watchlist of a fresh install: a spread of stocks, an ETF, and two commodities.
pub fn default_symbols() -> (r: Vec<String>)
    ensures
        views(r@) == default_list(),
{
    let r = vec![
        owned("AAPL"), owned("MSFT"), owned("NVDA"), owned("SPY"), owned("GC=F"),
        owned("CL=F"),
    ];
    assert(views(r@) =~= default_list());
    r
}

/// Normalize what the user typed into a Yahoo ticker: trimmed, ASCII upper-cased.
pub open spec fn normalized(s: Seq<char>) -> Seq<char> {
    upper_ascii(trim(s))
}

/// Normalize what the user typed into a Yahoo ticker: trimmed, uppercased.
pub fn normalize(input: &str) -> (r: String)
    ensures
        r@ == normalized(input@),
{
    let v = chars_of(input);
    let t = trim_chars(v.as_slice());
    let u = upper_chars(t.as_slice());
    string_of(u.as_slice())
}

/// Is byte `b` one a ticker may carry into a url unescaped?
pub open spec fn unreserved(b: u8) -> bool {
    ||| 65 <= b <= 90
    ||| 97 <= b <= 122
    ||| 48 <= b <= 57
    ||| b == 45
    ||| b == 46
    ||| b == 95
    ||| b == 126
}

/// The upper-case hexadecimal digit of `d` (`0 <= d < 16`).
pub open spec fn hex_digit(d: int) -> char {
    if d < 10 {
        (d + 48) as char
    } else {
        (d + 55) as char
    }
}

/// One byte escaped: itself when unreserved, else `%` and two upper-case hex digits.
pub open spec fn encode_byte(b: u8) -> Seq<char> {
    if unreserved(b) {
        seq![b as char]
    } else {
        seq!['%', hex_digit((b / 16) as int), hex_digit((b % 16) as int)]
    }
}

/// Every byte of `bs` escaped, in order.
pub open spec fn encode_bytes(bs: Seq<u8>) -> Seq<char>
    decreases bs.len(),
{
    if bs.len() == 0 {
        Seq::empty()
    } else {
        encode_bytes(bs.drop_last()) + encode_byte(bs.last())
    }
}

/// The text `s` percent-encoded over its UTF-8 bytes.
pub open spec fn percent_encoded(s: Seq<char>) -> Seq<char> {
    encode_bytes(vstd::utf8::encode_utf8(s))
}

fn is_unreserved(b: u8) -> (r: bool)
    ensures
        r == unreserved(b),
{
    (65 <= b && b <= 90) || (97 <= b && b <= 122) || (48 <= b && b <= 57) || b == 45 || b == 46
        || b == 95 || b == 126
}

fn hex(d: u8) -> (c: char)
    requires
        d < 16,
    ensures
        c == hex_digit(d as int),
{
    if d < 10 {
        (d + 48) as char
    } else {
        (d + 55) as char
    }
}

/// Encode the characters that appear in Yahoo tickers and mean something in a URL.
pub fn percent_encode(s: &str) -> (r: String)
    ensures
        r@ == percent_encoded(s@),
{
    let bytes = s.as_bytes();
    let mut out: Vec<char> = Vec::new();
    for i in 0..bytes.len()
        invariant
            out@ == encode_bytes(bytes@.take(i as int)),
    {
        let b = bytes[i];
        let ghost before = out@;
        if is_unreserved(b) {
            out.push(b as char);
        } else {
            out.push('%');
            out.push(hex(b / 16));
            out.push(hex(b % 16));
        }
        assert(bytes@.take(i + 1).drop_last() =~= bytes@.take(i as int));
        assert(out@ =~= before + encode_byte(b));
    }
    assert(bytes@.take(bytes.len() as int) =~= bytes@);
    string_of(out.as_slice())
}

/// The chart request for `symbol`: two years of daily bars from Yahoo's `v8/chart` endpoint,
/// the ticker percent-encoded into the path.
pub open spec fn chart_url_of(symbol: Seq<char>) -> Seq<char> {
    "https://query1.finance.yahoo.com/v8/finance/chart/"@ + percented_ticker(symbol)
        + "?range=2y&interval=1d"@
}

pub open spec fn percented_ticker(symbol: Seq<char>) -> Seq<char> {
    percent_encoded(symbol)
}

/// The chart request url for `symbol`.
pub fn chart_url(symbol: &str) -> (r: String)
    ensures
        r@ == chart_url_of(symbol@),
{
    let mut out: Vec<char> = Vec::new();
    extend_chars(&mut out, "https://query1.finance.yahoo.com/v8/finance/chart/");
    let enc = percent_encode(symbol);
    extend_chars(&mut out, enc.as_str());
    extend_chars(&mut out, "?range=2y&interval=1d");
    string_of(out.as_slice())
}

/// The comma-separated pieces of `s` that are not empty, `cur` being the piece read so far.
pub open spec fn fields_from(s: Seq<char>, cur: Seq<char>) -> Seq<Seq<char>>
    decreases s.len(),
{
    if s.len() == 0 {
        if cur.len() > 0 {
            seq![cur]
        } else {
            Seq::empty()
        }
    } else if s[0] == ',' {
        (if cur.len() > 0 {
            seq![cur]
        } else {
            Seq::empty()
        }) + fields_from(s.drop_first(), Seq::empty())
    } else {
        fields_from(s.drop_first(), cur.push(s[0]))
    }
}

/// The non-empty pieces of `s` between commas, in order.
pub open spec fn comma_fields(s: Seq<char>) -> Seq<Seq<char>> {
    fields_from(s, Seq::empty())
}

/// The pieces of `parts` joined by commas.
pub open spec fn joined(parts: Seq<Seq<char>>) -> Seq<char>
    decreases parts.len(),
{
    if parts.len() == 0 {
        Seq::empty()
    } else if parts.len() == 1 {
        parts[0]
    } else {
        parts[0] + seq![','] + joined(parts.drop_first())
    }
}

proof fn lemma_joined_push(ps: Seq<Seq<char>>, x: Seq<char>)
    requires
        ps.len() >= 1,
    ensures
        joined(ps.push(x)) == joined(ps) + seq![','] + x,
    decreases ps.len(),
{
    let q = ps.push(x);
    assert(q[0] == ps[0]);
    if ps.len() == 1 {
        assert(q.drop_first() =~= seq![x]);
        assert(joined(seq![x]) == x);
        assert(joined(q) == ps[0] + seq![','] + x);
    } else {
        lemma_joined_push(ps.drop_first(), x);
        assert(q.drop_first() =~= ps.drop_first().push(x));
        assert(joined(q) == ps[0] + seq![','] + joined(ps.drop_first().push(x)));
        assert(ps[0] + seq![','] + (joined(ps.drop_first()) + seq![','] + x) =~= (ps[0] + seq![','] + joined(ps.drop_first())) + seq![','] + x);
    }
}

/// The watchlist as it is stored: the symbols joined by commas.
pub fn join_symbols(list: &Vec<String>) -> (r: String)
    ensures
        r@ == joined(views(list@)),
{
    let mut out: Vec<char> = Vec::new();
    let ghost parts = views(list@);
    for i in 0..list.len()
        invariant
            parts == views(list@),
            out@ == joined(parts.take(i as int)),
    {
        let ghost before = out@;
        if i > 0 {
            out.push(',');
        }
        extend_chars(&mut out, list[i].as_str());
        proof {
            assert(parts.take(i + 1) =~= parts.take(i as int).push(parts[i as int]));
            if i > 0 {
                lemma_joined_push(parts.take(i as int), parts[i as int]);
            } else {
                assert(before.len() == 0);
            }
        }
    }
    assert(parts.take(list.len() as int) =~= parts);
    string_of(out.as_slice())
}

proof fn lemma_fields_step(s: Seq<char>, i: int, cur: Seq<char>)
    requires
        0 <= i < s.len(),
    ensures
        s[i] == ',' ==> fields_from(s.skip(i), cur) == (if cur.len() > 0 {
            seq![cur]
        } else {
            Seq::<Seq<char>>::empty()
        }) + fields_from(s.skip(i + 1), Seq::empty()),
        s[i] != ',' ==> fields_from(s.skip(i), cur) == fields_from(s.skip(i + 1), cur.push(s[i])),
{
    assert(s.skip(i).drop_first() =~= s.skip(i + 1));
}

/// The non-empty comma-separated pieces of `s`, in order.
pub fn split_fields(s: &str) -> (r: Vec<String>)
    ensures
        views(r@) == comma_fields(s@),
{
    let v = chars_of(s);
    let mut out: Vec<String> = Vec::new();
    let mut cur: Vec<char> = Vec::new();
    assert(v@.skip(0) =~= v@);
    for i in 0..v.len()
        invariant
            v@ == s@,
            views(out@) + fields_from(v@.skip(i as int), cur@) == comma_fields(s@),
    {
        proof {
            lemma_fields_step(v@, i as int, cur@);
        }
        if v[i] == ',' {
            if cur.len() > 0 {
                let piece = string_of(cur.as_slice());
                let ghost before = views(out@);
                out.push(piece);
                assert(views(out@) =~= before.push(cur@));
                assert(before + (seq![cur@] + fields_from(v@.skip(i + 1), Seq::empty())) =~= views(out@) + fields_from(v@.skip(i + 1), Seq::empty()));
            } else {
                assert(views(out@) + (Seq::<Seq<char>>::empty() + fields_from(v@.skip(i + 1), Seq::empty())) =~= views(out@) + fields_from(v@.skip(i + 1), Seq::empty()));
            }
            cur = Vec::new();
            assert(cur@ =~= Seq::<char>::empty());
        } else {
            cur.push(v[i]);
        }
    }
    let ghost rest = v@.skip(v.len() as int);
    assert(rest.len() == 0);
    if cur.len() > 0 {
        let piece = string_of(cur.as_slice());
        let ghost before = views(out@);
        out.push(piece);
        assert(views(out@) =~= before.push(cur@));
        assert(views(out@) =~= before + seq![cur@]);
    } else {
        assert(views(out@) =~= views(out@) + Seq::<Seq<char>>::empty());
    }
    out
}

/// The watchlist a launch starts with: a saved list wins, even an empty one, its entries
/// rewritten from the previous provider's tickers; a fresh install gets the defaults.
pub open spec fn seeded(saved: Option<Seq<char>>) -> Seq<Seq<char>> {
    match saved {
        Some(joined) => comma_fields(joined).map_values(|p: Seq<char>| migrated(p)),
        None => default_list(),
    }
}

/// The watchlist a launch starts with, from what the preferences hold (`None` when nothing
/// was ever saved).
pub fn seed_symbols(saved: Option<&str>) -> (r: Vec<String>)
    ensures
        views(r@) == seeded(match saved {
            Some(s) => Some(s@),
            None => None,
        }),
{
    match saved {
        None => default_symbols(),
        Some(joined) => {
            let fields = split_fields(joined);
            let ghost fs = views(fields@);
            let mut out: Vec<String> = Vec::new();
            for i in 0..fields.len()
                invariant
                    fs == views(fields@),
                    fs == comma_fields(joined@),
                    views(out@) == fs.take(i as int).map_values(|p: Seq<char>| migrated(p)),
            {
                let m = migrate_symbol(fields[i].as_str());
                let ghost before = views(out@);
                out.push(m);
                assert(views(out@) =~= before.push(m@));
                assert(fs.take(i + 1).map_values(|p: Seq<char>| migrated(p)) =~= fs.take(i as int).map_values(|p: Seq<char>| migrated(p)).push(migrated(fs[i as int])));
            }
            assert(fs.take(fields.len() as int) =~= fs);
            out
        },
    }
}

/// Is the app forced into deterministic mock mode, given the `TRADR_MOCK` setting?
pub open spec fn mock_requested(value: Option<Seq<char>>) -> bool {
    match value {
        Some(v) => !(v.len() == 0 || v == "0"@ || lower_ascii(v) == "false"@),
        None => false,
    }
}

/// Is the app forced into deterministic mock mode? `value` is the `TRADR_MOCK` setting:
/// anything but unset, empty, `0` or `false` in any case turns it on.
pub fn is_mock(value: Option<&str>) -> (r: bool)
    ensures
        r == mock_requested(match value {
            Some(v) => Some(v@),
            None => None,
        }),
{
    match value {
        None => false,
        Some(v) => {
            let cs = chars_of(v);
            if cs.len() == 0 {
                return false;
            }
            if str_eq(v, "0") {
                return false;
            }
            let low = lower_chars(cs.as_slice());
            let f = chars_of("false");
            !same_chars(low.as_slice(), f.as_slice())
        },
    }
}

/// Does `p` hold no comma?
pub open spec fn comma_free(p: Seq<char>) -> bool {
    forall|j: int| 0 <= j < p.len() ==> p[j] != ','
}

proof fn lemma_fields_word(w: Seq<char>, t: Seq<char>, cur: Seq<char>)
    requires
        comma_free(w),
    ensures
        fields_from(w + t, cur) == fields_from(t, cur + w),
    decreases w.len(),
{
    if w.len() == 0 {
        assert(w + t =~= t);
        assert(cur + w =~= cur);
    } else {
        assert((w + t)[0] == w[0]);
        assert(w[0] != ',');
        assert((w + t).drop_first() =~= w.drop_first() + t);
        assert(comma_free(w.drop_first())) by {
            assert forall|j: int| 0 <= j < w.drop_first().len() implies w.drop_first()[j] != ',' by {
                assert(w.drop_first()[j] == w[j + 1]);
            }
        }
        lemma_fields_word(w.drop_first(), t, cur.push(w[0]));
        assert(cur.push(w[0]) + w.drop_first() =~= cur + w);
    }
}

/// A stored list reads back as the pieces that were joined, when no piece is empty or
/// holds a comma.
pub proof fn lemma_fields_of_joined(parts: Seq<Seq<char>>)
    requires
        forall|i: int| 0 <= i < parts.len() ==> #[trigger] parts[i].len() > 0 && comma_free(parts[i]),
    ensures
        comma_fields(joined(parts)) == parts,
    decreases parts.len(),
{
    let e = Seq::<char>::empty();
    if parts.len() == 0 {
        assert(comma_fields(e) =~= Seq::<Seq<char>>::empty());
    } else if parts.len() == 1 {
        let p0 = parts[0];
        assert(p0.len() > 0 && comma_free(p0));
        lemma_fields_word(p0, e, e);
        assert(p0 + e =~= p0);
        assert(e + p0 =~= p0);
        assert(fields_from(e, p0) == seq![p0]);
        assert(parts =~= seq![p0]);
    } else {
        let p0 = parts[0];
        let rest = parts.drop_first();
        assert(p0.len() > 0 && comma_free(p0));
        assert forall|i: int| 0 <= i < rest.len() implies #[trigger] rest[i].len() > 0 && comma_free(rest[i]) by {
            assert(rest[i] == parts[i + 1]);
            assert(parts[i + 1].len() > 0 && comma_free(parts[i + 1]));
        }
        lemma_fields_of_joined(rest);
        let tail = seq![','] + joined(rest);
        assert(joined(parts) =~= p0 + tail);
        lemma_fields_word(p0, tail, e);
        assert(e + p0 =~= p0);
        assert(tail[0] == ',');
        assert(tail.drop_first() =~= joined(rest));
        assert(fields_from(tail, p0) == seq![p0] + fields_from(joined(rest), e));
        assert(parts =~= seq![p0] + rest);
    }
}

/// What is persisted is what the next launch starts with: a watchlist joined for storage and
/// read back is the same list, when no symbol is empty, holds a comma, or is spelled the way
/// an older build saved it.
pub proof fn lemma_stored_list_round_trip(list: Seq<Seq<char>>)
    requires
        forall|i: int|
            0 <= i < list.len() ==> #[trigger] list[i].len() > 0 && comma_free(list[i])
                && migrated(list[i]) == list[i],
    ensures
        seeded(Some(joined(list))) == list,
{
    lemma_fields_of_joined(list);
    assert(list.map_values(|p: Seq<char>| migrated(p)) =~= list);
}

proof fn lemma_trim_start_shape(s: Seq<char>)
    ensures
        trim_start(s).len() == 0 || !is_white(trim_start(s)[0]),
        exists|k: int| 0 <= k <= s.len() && trim_start(s) == s.skip(k),
    decreases s.len(),
{
    if s.len() > 0 && is_white(s[0]) {
        lemma_trim_start_shape(s.drop_first());
        let k = choose|k: int| 0 <= k <= s.drop_first().len() && trim_start(s.drop_first()) == s.drop_first().skip(k);
        assert(s.drop_first().skip(k) =~= s.skip(k + 1));
    } else {
        assert(s.skip(0) =~= s);
    }
}

proof fn lemma_trim_end_shape(s: Seq<char>)
    ensures
        trim_end(s).len() == 0 || !is_white(trim_end(s).last()),
        exists|k: int| 0 <= k <= s.len() && trim_end(s) == s.take(k),
    decreases s.len(),
{
    if s.len() > 0 && is_white(s.last()) {
        lemma_trim_end_shape(s.drop_last());
        let k = choose|k: int| 0 <= k <= s.drop_last().len() && trim_end(s.drop_last()) == s.drop_last().take(k);
        assert(s.drop_last().take(k) =~= s.take(k));
    } else {
        assert(s.take(s.len() as int) =~= s);
    }
}

proof fn lemma_trim_fixed(s: Seq<char>)
    requires
        s.len() == 0 || (!is_white(s[0]) && !is_white(s.last())),
    ensures
        trim(s) == s,
{
    if s.len() > 0 {
        assert(trim_start(s) == s);
        assert(trim_end(s) == s);
    } else {
        assert(trim_start(s) == s);
        assert(trim_end(s) == s);
    }
}

/// Normalizing twice is normalizing once: a normalized ticker is its own normal form.
pub proof fn lemma_normalize_idempotent(s: Seq<char>)
    ensures
        normalized(normalized(s)) == normalized(s),
{
    let a = trim_start(s);
    lemma_trim_start_shape(s);
    lemma_trim_end_shape(a);
    let t = trim(s);
    let k = choose|k: int| 0 <= k <= a.len() && trim_end(a) == a.take(k);
    assert(t.len() == 0 || !is_white(t[0])) by {
        if t.len() > 0 {
            assert(t[0] == a[0]);
        }
    }
    let u = upper_ascii(t);
    assert(u.len() == t.len());
    if u.len() > 0 {
        assert(u[0] == upper_char(t[0]));
        assert(u.last() == upper_char(t.last()));
    }
    lemma_trim_fixed(u);
    assert(upper_ascii(u) =~= u);
}

/// Every character that escaping writes is an ASCII letter or digit, `-`, `.`, `_`, `~` or
/// `%`: nothing that could end a url path or start a query survives.
pub proof fn lemma_encoded_is_url_safe(bs: Seq<u8>)
    ensures
        forall|i: int|
            0 <= i < encode_bytes(bs).len() ==> {
                let c = #[trigger] encode_bytes(bs)[i];
                ||| 'A' <= c <= 'Z'
                ||| 'a' <= c <= 'z'
                ||| '0' <= c <= '9'
                ||| c == '-'
                ||| c == '.'
                ||| c == '_'
                ||| c == '~'
                ||| c == '%'
            },
    decreases bs.len(),
{
    if bs.len() > 0 {
        lemma_encoded_is_url_safe(bs.drop_last());
        let pre = encode_bytes(bs.drop_last());
        let last = encode_byte(bs.last());
        assert(encode_bytes(bs) == pre + last);
        let b = bs.last();
        assert((b / 16) < 16 && (b % 16) < 16);
    }
}


/// Is `s` one of the previous provider's tickers that Yahoo spells otherwise?
pub open spec fn is_legacy(s: Seq<char>) -> bool {
    s == "XAUUSD"@ || s == "XAGUSD"@ || s == "CL.F"@ || s == "EURUSD"@
}

/// A watchlist saved under the previous provider's tickers loads in Yahoo's spelling: every
/// legacy ticker becomes one of the suggested Yahoo tickers (gold, silver and oil futures, the
/// euro rate), and migration leaves no legacy ticker behind, except where an older build saved
/// one with an extra `.US` on it.
pub proof fn lemma_migration_leaves_no_legacy(s: Seq<char>)
    requires
        !(s.len() >= 3 && s.skip(s.len() - 3) == ".US"@ && is_legacy(s.take(s.len() - 3))),
    ensures
        !is_legacy(migrated(s)),
        is_legacy(s) ==> preset_list().contains(migrated(s)),
        migrated("XAUUSD"@) == "GC=F"@,
        migrated("XAGUSD"@) == "SI=F"@,
        migrated("CL.F"@) == "CL=F"@,
        migrated("EURUSD"@) == "EURUSD=X"@,
{
    reveal_strlit("XAUUSD");
    reveal_strlit("XAGUSD");
    reveal_strlit("CL.F");
    reveal_strlit("EURUSD");
    reveal_strlit("GC=F");
    reveal_strlit("SI=F");
    reveal_strlit("CL=F");
    reveal_strlit("EURUSD=X");
    reveal_strlit(".US");
    // The legacy tickers differ from one another, and from their Yahoo spellings.
    assert("XAGUSD"@[2] != "XAUUSD"@[2]);
    assert("EURUSD"@[0] != "XAUUSD"@[0] && "EURUSD"@[0] != "XAGUSD"@[0]);
    assert("CL=F"@[2] != "CL.F"@[2]);
    let p = preset_list();
    assert(p[8] == "GC=F"@ && p[9] == "SI=F"@ && p[10] == "CL=F"@ && p[11] == "EURUSD=X"@);
    let m = migrated(s);
    if is_legacy(s) {
        assert(!is_legacy(m));
    } else if s.len() >= 3 && s.skip(s.len() - 3) == ".US"@ {
        assert(m == s.take(s.len() - 3));
    } else {
        assert(m == s);
    }
}

/// A normalized ticker is what was typed, trimmed, with every ASCII lower-case letter raised
/// to its capital, 32 code points lower, and nothing else changed: it holds no ASCII
/// lower-case letter at all.
pub proof fn lemma_normalized_has_no_lower_case(s: Seq<char>)
    ensures
        normalized(s).len() == trim(s).len(),
        forall|i: int| 0 <= i < normalized(s).len() ==> !('a' <= #[trigger] normalized(s)[i] <= 'z'),
        forall|i: int|
            0 <= i < trim(s).len() ==> if 'a' <= #[trigger] trim(s)[i] <= 'z' {
                normalized(s)[i] as u32 == trim(s)[i] as u32 - 32
            } else {
                normalized(s)[i] == trim(s)[i]
            },
{
    let t = trim(s);
    assert forall|i: int| 0 <= i < normalized(s).len() implies !('a' <= #[trigger] normalized(s)[i] <= 'z') by {
        assert(normalized(s)[i] == upper_char(t[i]));
    }
    assert forall|i: int| 0 <= i < t.len() implies if 'a' <= #[trigger] t[i] <= 'z' {
        normalized(s)[i] as u32 == t[i] as u32 - 32
    } else {
        normalized(s)[i] == t[i]
    } by {
        assert(normalized(s)[i] == upper_char(t[i]));
    }
}

} // verus!
