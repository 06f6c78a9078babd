use day_tradr::chart::{parse_chart, range_days, tail, window, ChartDoc, ChartResult};
use day_tradr::dates::{iso_date, mock_date};
use day_tradr::fetching::{
    after_failure, check_status, gate_step, plan_request, release_slot, request_failed,
    superseded_error, timeout_secs, GateStep, RetryStep,
};
use day_tradr::mock::{fnv, Lcg};
use day_tradr::proxy::{initial_proxy, proxied, DEFAULT_WEB_PROXY};
use day_tradr::symbols::{
    chart_url, default_symbols, is_mock, join_symbols, normalize, percent_encode, preset_at,
    preset_name, seed_symbols, split_fields,
};
use day_tradr::watchlist::{
    add, add_typed, breadth, display_order, is_tracked, move_symbol, overlay_key, push_symbol,
    remove, seed_chip_mode, seed_overlay, seed_sort, sorted_symbols, AddOutcome, ChipMode, Sort,
};

fn strings(v: &[&str]) -> Vec<String> {
    v.iter().map(|s| s.to_string()).collect()
}

#[test]
fn normalize_trims_and_uppercases_once_for_all() {
    assert_eq!(normalize("  aapl \t"), "AAPL");
    assert_eq!(normalize("gc=f"), "GC=F");
    assert_eq!(normalize("\u{3000}eurusd=x\u{a0}"), "EURUSD=X");
    assert_eq!(normalize("   "), "");
    let once = normalize(" msft ");
    assert_eq!(normalize(&once), once);
}

#[test]
fn stored_lists_load_migrated_and_round_trip() {
    assert_eq!(seed_symbols(None), strings(&["AAPL", "MSFT", "NVDA", "SPY", "GC=F", "CL=F"]));
    assert_eq!(seed_symbols(Some("")), Vec::<String>::new());
    assert_eq!(seed_symbols(Some("AAPL.US,,XAUUSD,")), strings(&["AAPL", "GC=F"]));
    assert_eq!(split_fields(",a,,bc,"), strings(&["a", "bc"]));
    let list = strings(&["AAPL", "GC=F", "EURUSD=X"]);
    let stored = join_symbols(&list);
    assert_eq!(stored, "AAPL,GC=F,EURUSD=X");
    assert_eq!(seed_symbols(Some(&stored)), list);
    assert_eq!(join_symbols(&Vec::new()), "");
    assert_eq!(default_symbols().len(), 6);
}

#[test]
fn mock_flag_reads_the_environment_value() {
    assert!(!is_mock(None));
    assert!(!is_mock(Some("")));
    assert!(!is_mock(Some("0")));
    assert!(!is_mock(Some("false")));
    assert!(!is_mock(Some("FaLsE")));
    assert!(is_mock(Some("1")));
    assert!(is_mock(Some("yes")));
    assert!(is_mock(Some("falsey")));
}

#[test]
fn escaping_covers_utf8_and_reserved_bytes() {
    assert_eq!(percent_encode("é"), "%C3%A9");
    assert_eq!(percent_encode("a b/c?d"), "a%20b%2Fc%3Fd");
    assert_eq!(percent_encode("-._~"), "-._~");
    assert_eq!(
        chart_url("GC=F"),
        "https://query1.finance.yahoo.com/v8/finance/chart/GC%3DF?range=2y&interval=1d"
    );
}

#[test]
fn names_come_from_the_catalog_or_the_symbol() {
    assert_eq!(preset_name("SPY"), "SPDR S&P 500 ETF");
    assert_eq!(preset_name("EURUSD=X"), "Euro / US Dollar");
    assert_eq!(preset_name("IBM"), "IBM");
    assert_eq!(preset_at(0), "AAPL");
    assert_eq!(preset_at(11), "EURUSD=X");
    assert_eq!(preset_at(99), "EURUSD=X");
}

#[test]
fn templates_route_every_shape() {
    let url = "https://h.example/p/q?x=1";
    assert_eq!(proxied(" https://r.example/%p ", url), "https://r.example/p/q?x=1");
    assert_eq!(proxied("https://r.example/%p/%p", url), "https://r.example/p/q?x=1/p/q?x=1");
    assert_eq!(proxied("https://r.example/?u=%u", "a?b"), "https://r.example/?u=a%3Fb");
    assert_eq!(proxied("https://r.example/", url), "https://r.example/https://h.example/p/q?x=1");
    assert_eq!(initial_proxy(None, true), DEFAULT_WEB_PROXY);
    assert_eq!(initial_proxy(None, false), "");
    assert_eq!(initial_proxy(Some(""), true), "");
    assert_eq!(initial_proxy(Some("https://x/%p"), false), "https://x/%p");
}

#[test]
fn dates_before_the_epoch_and_far_ahead() {
    assert_eq!(iso_date(-1), "1969-12-31");
    assert_eq!(iso_date(-86_400 * 365), "1969-01-01");
    assert_eq!(iso_date(951_782_400), "2000-02-29");
    assert_eq!(iso_date(253_402_300_800), "10000-01-01");
    assert_eq!(iso_date(-62_167_219_200), "0000-01-01");
    assert_eq!(iso_date(-62_167_219_201), "-001-12-31");
}

#[test]
fn every_second_of_a_day_prints_it_and_later_days_sort_later() {
    let day = 1_786_406_400; // 2026-08-11T00:00:00Z
    assert_eq!(iso_date(day), "2026-08-11");
    assert_eq!(iso_date(day + 86_399), "2026-08-11");
    assert_eq!(iso_date(day - 1), "2026-08-10");
    assert_eq!(iso_date(-1), iso_date(-86_400));
    let stamps = [
        -62_167_219_200, // 0000-01-01
        -86_401, // 1969-12-30
        -1,
        0,
        951_782_400,
        1_709_164_800,
        1_786_455_000,
        253_402_214_400, // 9999-12-31
    ];
    for pair in stamps.windows(2) {
        let (a, b) = (iso_date(pair[0]), iso_date(pair[1]));
        assert!(a < b, "{a} should sort before {b}");
    }
    for s in stamps {
        let text = iso_date(s);
        assert_eq!(text.len(), 10);
        for (i, c) in text.chars().enumerate() {
            if i == 4 || i == 7 {
                assert_eq!(c, '-');
            } else {
                assert!(c.is_ascii_digit(), "{text}");
            }
        }
    }
}

#[test]
fn mock_dates_count_back_from_the_first_of_july() {
    assert_eq!(mock_date(499, 500), "2026-07-01");
    assert_eq!(mock_date(498, 500), "2026-06-30");
    assert_eq!(mock_date(469, 500), "2026-06-01");
    assert_eq!(mock_date(468, 500), "2026-05-30");
    assert_eq!(mock_date(0, 500), "2025-02-12");
}

#[test]
fn mock_seed_and_generator_are_fixed() {
    assert_eq!(fnv(""), 0xcbf2_9ce4_8422_2325);
    assert_eq!(fnv("a"), 0xaf63_dc4c_8601_ec8c);
    assert_eq!(fnv("AAPL"), 9_876_512_230_236_253_387);
    assert_eq!(fnv("AAPL"), fnv("AAPL"));
    let mut g = Lcg::new(0);
    assert_eq!(g.next(), 167_951_807);
    assert_eq!(g.next(), 218_396_424);
    let mut a = Lcg::new(fnv("MSFT"));
    let mut b = Lcg::new(fnv("MSFT"));
    for _ in 0..100 {
        let (x, y) = (a.step_draw(350), b.step_draw(350));
        assert_eq!(x, y);
        assert!(x <= 700);
    }
}

#[test]
fn adding_is_idempotent_and_removal_keeps_order() {
    let mut list = strings(&["AAPL", "MSFT"]);
    assert!(add(&mut list, "NVDA"));
    assert!(!add(&mut list, "NVDA"));
    assert_eq!(list, strings(&["AAPL", "MSFT", "NVDA"]));
    assert!(is_tracked(&list, "MSFT"));
    assert!(!is_tracked(&list, "msft"));
    remove(&mut list, "MSFT");
    assert_eq!(list, strings(&["AAPL", "NVDA"]));
    remove(&mut list, "TSLA");
    assert_eq!(list, strings(&["AAPL", "NVDA"]));
    assert_eq!(add_typed(&mut list, "  tsla "), AddOutcome::Added);
    assert_eq!(add_typed(&mut list, "TSLA"), AddOutcome::Exists);
    assert_eq!(add_typed(&mut list, " \t"), AddOutcome::Empty);
    assert_eq!(list, strings(&["AAPL", "NVDA", "TSLA"]));
}

#[test]
fn moving_reorders_within_bounds_only() {
    let mut list = strings(&["A", "B", "C", "D"]);
    assert!(move_symbol(&mut list, 0, 2));
    assert_eq!(list, strings(&["B", "C", "A", "D"]));
    assert!(move_symbol(&mut list, 3, 0));
    assert_eq!(list, strings(&["D", "B", "C", "A"]));
    assert!(!move_symbol(&mut list, 4, 0));
    assert!(!move_symbol(&mut list, 0, 4));
    assert_eq!(list, strings(&["D", "B", "C", "A"]));
}

#[test]
fn a_stack_never_repeats_its_top() {
    let mut path = Vec::new();
    push_symbol(&mut path, "AAPL");
    push_symbol(&mut path, "AAPL");
    push_symbol(&mut path, "MSFT");
    push_symbol(&mut path, "AAPL");
    assert_eq!(path, strings(&["AAPL", "MSFT", "AAPL"]));
}

#[test]
fn preferences_read_back_as_saved() {
    for s in [Sort::Manual, Sort::Name, Sort::Change] {
        assert_eq!(seed_sort(Some(s.key())), s);
        assert_eq!(Sort::from_index(s.index()), s);
    }
    assert_eq!(seed_sort(None), Sort::Manual);
    assert_eq!(seed_sort(Some("bogus")), Sort::Manual);
    assert_eq!(Sort::from_index(7), Sort::Change);
    for m in [ChipMode::Both, ChipMode::Percent, ChipMode::Absolute] {
        assert_eq!(seed_chip_mode(Some(m.key())), m);
        assert_eq!(m.next().next().next(), m);
        assert_ne!(m.next(), m);
    }
    assert_eq!(ChipMode::Both.next(), ChipMode::Percent);
    assert_eq!(ChipMode::Percent.next(), ChipMode::Absolute);
    assert_eq!(seed_chip_mode(None), ChipMode::Both);
    assert!(seed_overlay(None));
    assert!(seed_overlay(Some(overlay_key(true))));
    assert!(!seed_overlay(Some(overlay_key(false))));
    assert!(seed_overlay(Some("no")));
}

#[test]
fn display_orders_sort_by_name_and_by_move() {
    let list = strings(&["MSFT", "AAPL", "SPY", "GC=F", "CL=F"]);
    let moves = vec![Some(5), None, Some(-2), Some(5), None];
    assert_eq!(sorted_symbols(list.clone(), Sort::Manual, &moves), list);
    assert_eq!(
        sorted_symbols(list.clone(), Sort::Name, &moves),
        strings(&["AAPL", "CL=F", "GC=F", "MSFT", "SPY"])
    );
    // Biggest move first, ties in list order, loading symbols last by name.
    assert_eq!(
        sorted_symbols(list.clone(), Sort::Change, &moves),
        strings(&["MSFT", "GC=F", "SPY", "AAPL", "CL=F"])
    );
    assert_eq!(display_order(&list, Sort::Change, &moves), vec![0, 3, 2, 1, 4]);
}

#[test]
fn breadth_counts_movers_and_names_the_extremes() {
    let list = strings(&["A", "B", "C", "D"]);
    assert!(breadth(&list, &vec![None, None, None, None]).is_none());
    let b = breadth(&list, &vec![Some(3), None, Some(-1), Some(3)]).unwrap();
    assert_eq!((b.up, b.down), (2, 1));
    assert_eq!(b.best, Some(("A".to_string(), 3)));
    assert_eq!(b.worst, Some(("C".to_string(), -1)));
    let flat = breadth(&list, &vec![None, Some(0), None, None]).unwrap();
    assert_eq!((flat.up, flat.down), (1, 0));
    assert_eq!(flat.best, Some(("B".to_string(), 0)));
    assert_eq!(flat.worst, Some(("B".to_string(), 0)));
}

fn result_with(closes: Vec<Option<f64>>, stamps: Vec<Option<i64>>) -> ChartResult<f64> {
    ChartResult {
        short_name: None,
        long_name: None,
        market_price: None,
        previous_close: None,
        day_high: None,
        day_low: None,
        day_volume: None,
        stamps,
        opens: Vec::new(),
        highs: Vec::new(),
        lows: Vec::new(),
        closes,
        volumes: Vec::new(),
    }
}

#[test]
fn chart_falls_back_to_bars_and_catalog_names() {
    let mut r = result_with(vec![Some(10.0), Some(11.0), None], vec![Some(0), None, Some(86_400)]);
    r.short_name = Some(String::new());
    r.long_name = Some("Ignored".to_string());
    r.previous_close = Some(9.5);
    let q = parse_chart(Ok(ChartDoc { error: None, result: Some(r) }), "GC=F", 0.0).unwrap();
    // Only the first row has both a stamp and a close.
    assert_eq!(q.closes, [10.0]);
    assert_eq!(q.dates, ["1970-01-01"]);
    assert_eq!(q.volumes, [0.0]);
    assert_eq!(q.name, "Gold Futures");
    assert_eq!(q.last, 10.0);
    assert_eq!(q.prev_close, 9.5);
    assert_eq!((q.open, q.high, q.low, q.volume), (0.0, 0.0, 0.0, 0.0));
}

#[test]
fn chart_errors_name_the_symbol() {
    let e = parse_chart::<f64>(Err("expected value".to_string()), "X", 0.0).unwrap_err();
    assert_eq!(e.0, "X: malformed response (expected value)");
    let e = parse_chart::<f64>(
        Ok(ChartDoc { error: Some("gone".to_string()), result: Some(result_with(vec![Some(1.0)], vec![Some(0)])) }),
        "X",
        0.0,
    )
    .unwrap_err();
    assert_eq!(e.0, "X: gone");
    let e = parse_chart::<f64>(Ok(ChartDoc { error: None, result: None }), "X", 0.0).unwrap_err();
    assert_eq!(e.0, "X: no data (unknown symbol?)");
    let e = parse_chart::<f64>(
        Ok(ChartDoc { error: None, result: Some(result_with(vec![None], vec![Some(0)])) }),
        "X",
        0.0,
    )
    .unwrap_err();
    assert_eq!(e.0, "X: no data (unknown symbol?)");
}

#[test]
fn windows_slice_the_tail() {
    let v = [1, 2, 3, 4, 5];
    assert_eq!(tail(&v, 2), &[4, 5]);
    assert_eq!(tail(&v, 9), &v);
    assert_eq!(tail(&v, 0), &[] as &[i32]);
    let dates = strings(&["a", "b", "c", "d", "e"]);
    let (c, d) = window(&v, &dates, 3).unwrap();
    assert_eq!(c, &[3, 4, 5]);
    assert_eq!(d, &dates[2..]);
    assert!(window(&v, &dates, 1).is_none());
    assert_eq!(range_days(0), 22);
    assert_eq!(range_days(3), 252);
    assert_eq!(range_days(4), usize::MAX);
    assert_eq!(range_days(40), usize::MAX);
}

#[test]
fn fetch_decisions() {
    assert_eq!(gate_step(0, false), GateStep::Acquire(1));
    assert_eq!(gate_step(1, false), GateStep::Acquire(2));
    assert_eq!(gate_step(2, false), GateStep::Wait);
    assert_eq!(gate_step(0, true), GateStep::Abandon);
    assert_eq!(release_slot(0), 0);
    assert_eq!(release_slot(2), 1);
    assert_eq!(after_failure(0, false), RetryStep::Retry(600));
    assert_eq!(after_failure(3, false), RetryStep::Retry(2400));
    assert_eq!(after_failure(4, false), RetryStep::Exhausted);
    assert_eq!(after_failure(1, true), RetryStep::Superseded);
    assert_eq!((timeout_secs(false), timeout_secs(true)), (15, 25));
    assert!(check_status(200).is_ok());
    assert!(check_status(299).is_ok());
    assert_eq!(check_status(429).unwrap_err().0, "request failed: HTTP 429");
    assert_eq!(check_status(0).unwrap_err().0, "request failed: HTTP 0");
    assert_eq!(request_failed("timeout").0, "request failed: timeout");
    assert_eq!(superseded_error().0, "superseded");
    let direct = plan_request("", "AAPL");
    assert!(!direct.via_proxy);
    assert_eq!(direct.route, direct.url);
    let relayed = plan_request("https://proxy.daybrite.dev/sites/finance/%p", "GC=F");
    assert!(relayed.via_proxy);
    assert_eq!(
        relayed.route,
        "https://proxy.daybrite.dev/sites/finance/v8/finance/chart/GC%3DF?range=2y&interval=1d"
    );
}
