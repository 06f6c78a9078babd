use day_tradr::chart::{parse_chart, ChartDoc, ChartResult, Quote};
use day_tradr::dates::iso_date;
use day_tradr::proxy::{path_and_query, proxied, DAYBRITE_WEB_PROXY, DEFAULT_WEB_PROXY};
use day_tradr::symbols::{migrate_symbol, percent_encode, preset_name, presets};

/// Reads a `v8/chart` body into the parser's input, the way the app does.
fn chart_doc(body: &str) -> Result<ChartDoc<f64>, String> {
    let root: serde_json::Value = serde_json::from_str(body).map_err(|e| e.to_string())?;
    let chart = &root["chart"];
    let error = chart["error"]["description"].as_str().map(str::to_owned);
    let result = chart["result"].get(0).map(|result| {
        let meta = &result["meta"];
        let quote = &result["indicators"]["quote"][0];
        let col = |name: &str| -> Vec<Option<f64>> {
            quote[name]
                .as_array()
                .map(|a| a.iter().map(serde_json::Value::as_f64).collect())
                .unwrap_or_default()
        };
        ChartResult {
            short_name: meta["shortName"].as_str().map(str::to_owned),
            long_name: meta["longName"].as_str().map(str::to_owned),
            market_price: meta["regularMarketPrice"].as_f64(),
            previous_close: meta["chartPreviousClose"].as_f64(),
            day_high: meta["regularMarketDayHigh"].as_f64(),
            day_low: meta["regularMarketDayLow"].as_f64(),
            day_volume: meta["regularMarketVolume"].as_f64(),
            stamps: result["timestamp"]
                .as_array()
                .map(|a| a.iter().map(serde_json::Value::as_i64).collect())
                .unwrap_or_default(),
            opens: col("open"),
            highs: col("high"),
            lows: col("low"),
            closes: col("close"),
            volumes: col("volume"),
        }
    });
    Ok(ChartDoc { error, result })
}

fn parse(body: &str, symbol: &str) -> Result<Quote<f64>, day_tradr::chart::QuoteError> {
    parse_chart(chart_doc(body), symbol, 0.0)
}

const AAPL_JSON: &str = r#"{"chart":{"result":[{"meta":{"currency":"USD","symbol":"AAPL","shortName":"Apple Inc.","longName":"Apple Inc.","regularMarketPrice":304.91,"chartPreviousClose":309.38,"regularMarketDayHigh":309.97,"regularMarketDayLow":302.79,"regularMarketVolume":34168163},"timestamp":[1786109400,1786368600,1786455000],"indicators":{"quote":[{"open":[311.45001220703125,306.8299865722656,307.75],"high":[314.80999755859375,308.260009765625,309.9700012207031],"low":[310.739990234375,304.6099853515625,302.7900085449219],"close":[313.3299865722656,308.260009765625,304.9100036621094],"volume":[34437200,44812500,34168163]}]}}],"error":null}}"#;

const GOLD_JSON: &str = r#"{"chart":{"result":[{"meta":{"currency":"USD","symbol":"GC=F","shortName":"Gold Dec 26","regularMarketPrice":4467.3,"chartPreviousClose":4452.1,"regularMarketDayHigh":4478.0,"regularMarketDayLow":4441.2,"regularMarketVolume":1234},"timestamp":[1786109400,1786368600,1786455000],"indicators":{"quote":[{"open":[4450.0,null,4460.1],"high":[4470.0,null,4478.0],"low":[4440.0,null,4441.2],"close":[4452.1,null,4467.3],"volume":[900,null,1234]}]}}],"error":null}}"#;

const UNKNOWN_JSON: &str = r#"{"chart":{"result":null,"error":{"code":"Not Found","description":"No data found, symbol may be delisted"}}}"#;

#[test]
fn chart_parses_a_real_response() {
    let q = parse(AAPL_JSON, "AAPL").unwrap();
    assert_eq!(q.name, "Apple Inc.");
    assert_eq!(q.symbol, "AAPL");
    assert!(!q.mock);
    assert_eq!(q.closes.len(), 3);
    assert_eq!(q.volumes.len(), 3);
    assert_eq!(q.dates, ["2026-08-07", "2026-08-10", "2026-08-11"]);
    assert_eq!(q.volumes[0], 34_437_200.0);
    assert_eq!(q.last, 304.91);
    assert_eq!(q.prev_close, 308.260009765625);
    assert_eq!((q.high, q.low, q.volume), (309.97, 302.79, 34_168_163.0));
    assert_eq!(q.open, 307.75);
    let change = q.last - q.prev_close;
    let change_pct = change / q.prev_close * 100.0;
    assert!(change < 0.0 && change_pct < 0.0);
}

#[test]
fn chart_drops_null_bars_and_keeps_arrays_aligned() {
    let q = parse(GOLD_JSON, "GC=F").unwrap();
    assert_eq!(q.name, "Gold Dec 26");
    assert_eq!(q.closes, [4452.1, 4467.3]);
    assert_eq!(q.volumes, [900.0, 1234.0]);
    assert_eq!(q.dates, ["2026-08-07", "2026-08-11"]);
    assert_eq!(q.prev_close, 4452.1);
    assert_eq!(q.open, 4460.1);
}

#[test]
fn unknown_symbol_is_an_error_not_an_empty_chart() {
    let e = parse(UNKNOWN_JSON, "NOPE").unwrap_err();
    assert!(e.0.contains("NOPE"), "{}", e.0);
    assert!(e.0.contains("delisted"), "{}", e.0);
    assert!(parse("<html>rate limited</html>", "NOPE").is_err());
}

#[test]
fn tickers_survive_the_url_and_legacy_lists_migrate() {
    assert_eq!(percent_encode("GC=F"), "GC%3DF");
    assert_eq!(percent_encode("EURUSD=X"), "EURUSD%3DX");
    assert_eq!(percent_encode("AAPL"), "AAPL");
    assert_eq!(migrate_symbol("AAPL.US"), "AAPL");
    assert_eq!(migrate_symbol("XAUUSD"), "GC=F");
    assert_eq!(migrate_symbol("CL.F"), "CL=F");
    assert_eq!(migrate_symbol("EURUSD"), "EURUSD=X");
    assert_eq!(migrate_symbol("GC=F"), "GC=F");
    assert_eq!(migrate_symbol("MSFT"), "MSFT");
}

#[test]
fn proxy_templates_route_the_url() {
    let url = "https://query1.finance.yahoo.com/v8/finance/chart/AAPL?range=2y&interval=1d";
    assert_eq!(proxied("", url), url);
    assert_eq!(proxied("   ", url), url);
    const ENCODED: &str = "https://api.allorigins.win/raw?url=%u";
    let via = proxied(ENCODED, url);
    assert!(
        via.starts_with("https://api.allorigins.win/raw?url=https%3A%2F%2F"),
        "{via}"
    );
    assert!(via.contains("%3Frange%3D2y%26interval%3D1d"), "{via}");
    assert_eq!(
        via.matches('?').count(),
        1,
        "only the proxy's own query survives: {via}"
    );
    assert_eq!(
        proxied("https://proxy.example/", url),
        format!("https://proxy.example/{url}")
    );
    let fut = "https://query1.finance.yahoo.com/v8/finance/chart/GC%3DF?range=2y&interval=1d";
    assert!(
        proxied(ENCODED, fut).contains("GC%253DF"),
        "double-encoded once"
    );
    assert!(!DEFAULT_WEB_PROXY.trim().is_empty());
    assert!(!proxied(DEFAULT_WEB_PROXY, url).contains("query1.finance.yahoo.com/v8"));
}

#[test]
fn path_templates_carry_the_path_verbatim() {
    let url = "https://query1.finance.yahoo.com/v8/finance/chart/AAPL?range=2y&interval=1d";
    assert_eq!(
        proxied(DAYBRITE_WEB_PROXY, url),
        "https://proxy.daybrite.dev/sites/finance/v8/finance/chart/AAPL?range=2y&interval=1d"
    );
    let fut = "https://query1.finance.yahoo.com/v8/finance/chart/GC%3DF?range=2y&interval=1d";
    assert_eq!(
        proxied(DAYBRITE_WEB_PROXY, fut),
        "https://proxy.daybrite.dev/sites/finance/v8/finance/chart/GC%3DF?range=2y&interval=1d"
    );
    assert!(!proxied(DAYBRITE_WEB_PROXY, url).contains("yahoo.com"));
    assert_eq!(path_and_query("https://example.com"), "");
    assert_eq!(path_and_query("https://example.com/"), "");
    assert_eq!(path_and_query("v8/chart?x=1"), "chart?x=1");
}

#[test]
fn iso_date_matches_known_stamps() {
    assert_eq!(iso_date(0), "1970-01-01");
    assert_eq!(iso_date(1_786_455_000), "2026-08-11");
    assert_eq!(iso_date(1_709_164_800), "2024-02-29");
}

#[test]
fn presets_are_named_and_encodable() {
    for s in presets() {
        assert_ne!(preset_name(&s), s, "{s} has no display name");
        assert!(!percent_encode(&s).is_empty());
    }
}
