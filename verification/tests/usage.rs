use ganja_tui::component::layout::Popup;
use ganja_tui::component::status::Totals;
use ganja_tui::component::usage::{
    compact_duration, compact_minutes, plan_label, Data, PlanWindow, RateWindow, Reset, TokenUsage,
    TurnUsage, Usage,
};
use ganja_tui::theme::Theme;

/// How much room there is to draw in.
#[derive(Clone, Copy)]
struct Rect {
    width: u16,
    height: u16,
}

impl Rect {
    fn new(_x: u16, _y: u16, width: u16, height: u16) -> Rect {
        Rect { width, height }
    }
}

/// Wide enough for a per-model line to render whole, and taller than the panel
/// grows.
const AREA: Rect = Rect { width: 100, height: 32 };

/// The page that tells how plan buckets are asked for.
const PAGE: &str = "platform.example.com/docs/en/manage/usage-cost-api";

/// An amount of money, exactly as the number holds it.
fn dollars(amount: f64) -> u128 {
    (amount * 2f64.powi(80)) as u128
}

fn data() -> Data {
    Data {
        totals: Totals { input_tokens: 16, output_tokens: 4, cost: Some(dollars(0.5)) },
        splits: TokenUsage {
            input_tokens: 3,
            output_tokens: 4,
            reasoning_tokens: 5,
            cache_read_tokens: 6,
            cache_write_tokens: 7,
        },
        context: Some((50_000, 200_000)),
        turns: vec![TurnUsage {
            short_id: "01abcdef".to_owned(),
            model: "sonnet-5".to_owned(),
            usage: TokenUsage {
                input_tokens: 3,
                output_tokens: 4,
                reasoning_tokens: 5,
                cache_read_tokens: 6,
                cache_write_tokens: 7,
            },
            cost: Some(dollars(0.000_25)),
            cost_cell: "$0.0003".to_owned(),
        }],
        duration: None,
        rates: Vec::new(),
        plans: Vec::new(),
        limits_page: PAGE.to_owned(),
    }
}

/// A reset this many seconds away, or past.
fn reset(in_secs: Option<i64>) -> Reset {
    match in_secs {
        None => Reset::Unreported,
        Some(seconds) if seconds < 0 => Reset::Passed,
        Some(seconds) => Reset::In(seconds.unsigned_abs()),
    }
}

/// One plan window, `used_percent` spent, over a `minutes`-long window,
/// refilling in `in_secs`.
fn plan(name: &str, used_percent: f64, minutes: Option<u64>, in_secs: Option<i64>) -> PlanWindow {
    PlanWindow {
        name: name.to_owned(),
        used: (used_percent * 10_000_000.0) as u64,
        window_minutes: minutes,
        reset: reset(in_secs),
        limit_name: None,
    }
}

/// One rate-limit window, `remaining` of `limit` left, refilling in `in_secs`.
fn window(kind: &str, limit: u64, remaining: u64, in_secs: Option<i64>) -> RateWindow {
    RateWindow {
        kind: kind.to_owned(),
        limit,
        remaining,
        used: (limit - remaining) * 1_000_000_000 / limit,
        reset: reset(in_secs),
    }
}

/// What a panel reads as, line by line.
fn text(popup: &Popup) -> String {
    popup
        .lines
        .iter()
        .map(|line| {
            let read: String = line.spans.iter().map(|span| span.content.as_str()).collect();
            read.trim_end().to_owned()
        })
        .collect::<Vec<_>>()
        .join("\n")
}

fn rendered(dialog: &Usage, area: Rect) -> String {
    match dialog.render(area.width, area.height, &Theme::default()) {
        Some(popup) => {
            assert!(popup.width <= area.width && popup.height <= area.height);
            text(&popup)
        }
        None => String::new(),
    }
}

#[test]
fn a_turn_row_is_spelled_by_the_inspectors_own_formatter() {
    let data = data();
    let row = &data.turns[0];
    let screen = rendered(&Usage::new(data.clone()), AREA);

    assert!(
        screen.contains(&row.short_id),
        "the turn row carries the id as it was spelled; got:\n{screen}"
    );
    assert!(
        screen.contains(&row.cost_cell),
        "the turn row carries the cost cell as it was spelled ({}); got:\n{screen}",
        row.cost_cell
    );
}

#[test]
fn the_session_section_renders_the_totals_own_cost_and_the_turns_own_numbers() {
    let screen = rendered(&Usage::new(data()), AREA);

    assert!(screen.contains("Total cost:"), "got:\n{screen}");
    assert!(screen.contains("$0.50"), "the totals' 0.5 USD:\n{screen}");
    assert!(
        screen.contains(
            "sonnet-5:  3 input, 4 output, 5 reasoning, 6 cache read, 7 cache write"
        ),
        "the turn's own split:\n{screen}"
    );
}

#[test]
fn turns_on_the_same_model_fold_into_one_summed_line() {
    let mut data = data();
    data.turns.push(data.turns[0].clone());

    let screen = rendered(&Usage::new(data), AREA);
    assert!(
        screen.contains(
            "sonnet-5:  6 input, 8 output, 10 reasoning, 12 cache read, 14 cache write"
        ),
        "got:\n{screen}"
    );
}

#[test]
fn every_section_and_the_turn_table_are_shown() {
    let screen = rendered(&Usage::new(data()), AREA);

    for section in ["Session", "Context", "Cache", "Turns"] {
        assert!(screen.contains(section), "{section} missing:\n{screen}");
    }
    assert!(screen.contains("Usage by model:"), "got:\n{screen}");
    assert!(screen.contains("estimated"), "the context sub-line says estimated:\n{screen}");
}

#[test]
fn the_context_bar_is_block_cells_followed_by_the_percentage() {
    let screen = rendered(&Usage::new(data()), AREA);

    assert!(
        screen.contains("\u{2588}\u{2588}\u{2588}\u{2588}\u{2588}\u{2591}"),
        "five filled cells then the remainder:\n{screen}"
    );
    assert!(screen.contains("25% used"), "got:\n{screen}");
    assert!(
        !screen.contains("[#") && !screen.contains("#-"),
        "the ASCII meter is gone from this panel:\n{screen}"
    );
}

#[test]
fn the_cache_hit_rate_is_reads_over_all_input() {
    let (reads, input) = Usage::new(data()).cache_hit_rate().expect("the fixture sent input");
    let rate = reads as f64 / input as f64;

    assert!((rate - 0.375).abs() < f64::EPSILON, "got {rate}");
}

#[test]
fn the_duration_row_formats_compactly_and_only_over_a_measured_duration() {
    for (duration, spelled) in
        [(3 * 3_600 + 9 * 60, "3h 9m"), (2 * 60, "2m"), (45, "45s")]
    {
        let screen = rendered(&Usage::new(Data { duration: Some(duration), ..data() }), AREA);
        assert!(
            screen.contains(&format!("Total duration:  {spelled}")),
            "want {spelled} in:\n{screen}"
        );
    }

    let unmeasured = rendered(&Usage::new(data()), AREA);
    assert!(!unmeasured.contains("Total duration"), "no measured duration, no row:\n{unmeasured}");
}

#[test]
fn plan_limits_are_absent_with_the_honest_line() {
    let screen = rendered(&Usage::new(data()), AREA);

    assert!(
        screen.contains("plan limits unavailable on this credential (probed 2026-08-14):"),
        "got:\n{screen}"
    );
    assert!(
        screen.contains("an openai API key's backend sends none")
            && screen.contains("anthropic's needs an"),
        "the still-silent credentials are named:\n{screen}"
    );
    assert!(
        screen.contains(PAGE),
        "and the vendor's own page is kept:\n{screen}"
    );
    assert!(
        !screen.contains("Plan limits"),
        "no plan-limit meter may be drawn over nothing:\n{screen}"
    );
    assert!(
        !screen.contains("Current window"),
        "a vendor that said nothing gets no section:\n{screen}"
    );
}

#[test]
fn the_plan_limits_section_meters_each_bucket_the_credential_served() {
    let screen = rendered(
        &Usage::new(Data {
            plans: vec![
                plan("primary", 12.0, Some(300), Some(90)),
                plan("secondary", 40.0, Some(10_080), Some(86_400)),
            ],
            ..data()
        }),
        AREA,
    );

    assert!(screen.contains("Plan limits"), "got:\n{screen}");
    assert!(
        screen.contains("secondary \u{b7} 7d window, resets in 24h 0m"),
        "the weekly bucket names its window and its countdown:\n{screen}"
    );
    assert!(
        screen.contains("primary \u{b7} 5h window, resets in 1m"),
        "and so does the short one:\n{screen}"
    );
    assert!(
        screen.contains("40%") && screen.contains("12%"),
        "each bar carries its own percentage:\n{screen}"
    );
}

#[test]
fn a_drawn_plan_meter_replaces_the_absence_line_rather_than_joining_it() {
    let screen = rendered(
        &Usage::new(Data {
            plans: vec![plan("primary", 12.0, Some(300), Some(90))],
            ..data()
        }),
        AREA,
    );

    assert!(screen.contains("Plan limits"), "got:\n{screen}");
    assert!(
        !screen.contains("plan limits unavailable"),
        "a panel that drew one may not deny having one:\n{screen}"
    );
    assert!(screen.contains("[Esc] close"), "and the footer still fits:\n{screen}");
}

#[test]
fn a_plan_window_the_vendor_never_dated_says_so_instead_of_counting_down() {
    let screen = rendered(
        &Usage::new(Data {
            plans: vec![plan("premium_interactions", 11.5, None, None)],
            ..data()
        }),
        AREA,
    );

    assert!(screen.contains("premium_interactions \u{b7} no reset reported"), "got:\n{screen}");
    assert!(
        !screen.contains("resets in") && !screen.contains("window,"),
        "nothing may invent a clock or a window length:\n{screen}"
    );
}

#[test]
fn a_plan_window_past_its_reset_renders_as_expired() {
    let screen = rendered(
        &Usage::new(Data {
            plans: vec![plan("primary", 99.0, Some(300), Some(-1))],
            ..data()
        }),
        AREA,
    );

    assert!(screen.contains("expired \u{2014} refreshes on the next request"), "got:\n{screen}");
}

#[test]
fn plan_windows_past_the_sections_cap_are_counted_and_the_tightest_are_kept() {
    let screen = rendered(
        &Usage::new(Data {
            plans: vec![
                plan("primary", 5.0, Some(300), Some(60)),
                plan("secondary", 80.0, Some(10_080), Some(60)),
                plan("bengalfox primary", 50.0, None, Some(60)),
            ],
            ..data()
        }),
        AREA,
    );

    assert!(
        screen.contains("secondary \u{b7}") && screen.contains("bengalfox primary \u{b7}"),
        "the two tightest are the ones drawn:\n{screen}"
    );
    assert!(
        screen.contains("(1 roomier plan windows not shown)"),
        "the rest is counted rather than dropped:\n{screen}"
    );
}

#[test]
fn a_rolling_windows_length_reads_as_hours_or_days_rather_than_minutes() {
    for (minutes, spelled) in
        [(45, "45m"), (300, "5h"), (90, "1h 30m"), (10_080, "7d"), (1_500, "1d 1h")]
    {
        assert_eq!(compact_minutes(minutes), spelled, "for {minutes} minutes");
    }
}

#[test]
fn the_current_window_section_meters_each_bucket_the_vendor_reported() {
    let screen = rendered(
        &Usage::new(Data {
            rates: vec![
                window("requests", 1_000, 900, Some(90)),
                window("input-tokens", 80_000, 20_000, Some(30)),
            ],
            ..data()
        }),
        AREA,
    );

    assert!(screen.contains("Current window"), "got:\n{screen}");
    assert!(
        screen.contains("requests \u{b7} 900 of 1.0k left, resets in 1m"),
        "the requests bucket renders its own name, counts and reset:\n{screen}"
    );
    assert!(
        screen.contains("input-tokens \u{b7} 20.0k of 80.0k left, resets in 30s"),
        "and so does the token bucket:\n{screen}"
    );
    assert!(screen.contains("plan limits unavailable on this credential"), "got:\n{screen}");
}

#[test]
fn a_window_past_its_reset_renders_as_expired_rather_than_as_a_live_number() {
    let screen = rendered(
        &Usage::new(Data {
            rates: vec![window("requests", 1_000, 4, Some(-1))],
            ..data()
        }),
        AREA,
    );

    assert!(screen.contains("expired \u{2014} refreshes on the next request"), "got:\n{screen}");
    assert!(
        !screen.contains("resets in"),
        "nothing may claim the window is still counting down:\n{screen}"
    );
    assert!(screen.contains("4 of 1.0k left"), "got:\n{screen}");
}

#[test]
fn a_window_its_vendor_never_dated_says_so_instead_of_borrowing_a_clock() {
    let screen = rendered(
        &Usage::new(Data {
            rates: vec![window("requests", 1_000, 900, None)],
            ..data()
        }),
        AREA,
    );

    assert!(
        screen.contains("requests \u{b7} 900 of 1.0k left, resets: \u{2014}"),
        "the counts are the vendor's and the clock is nobody's:\n{screen}"
    );
    assert!(
        !screen.contains("expired"),
        "the staleness marker may not fire for a window nothing dated:\n{screen}"
    );
    assert!(
        !screen.contains("resets in"),
        "and no countdown may be invented for it either:\n{screen}"
    );
}

#[test]
fn windows_past_the_sections_cap_are_counted_and_the_tightest_are_kept() {
    let screen = rendered(
        &Usage::new(Data {
            rates: vec![
                window("requests", 100, 99, Some(60)),
                window("input-tokens", 100, 5, Some(60)),
                window("output-tokens", 100, 50, Some(60)),
                window("tokens", 100, 90, Some(60)),
            ],
            ..data()
        }),
        AREA,
    );

    assert!(
        screen.contains("input-tokens \u{b7} 5 of 100 left")
            && screen.contains("output-tokens \u{b7} 50 of 100 left"),
        "the two tightest windows are the ones drawn:\n{screen}"
    );
    assert!(
        screen.contains("(2 roomier windows not shown)"),
        "the rest are counted rather than dropped:\n{screen}"
    );
    assert!(
        screen.contains("plan limits unavailable on this credential"),
        "and the footer still fits:\n{screen}"
    );
}

#[test]
fn an_empty_session_names_its_own_empty_states() {
    let screen = rendered(&Usage::new(Data::default()), AREA);

    assert!(screen.contains("nothing sent yet"), "got:\n{screen}");
    assert!(screen.contains("no finished turns yet"), "got:\n{screen}");
    assert!(screen.contains("none yet"), "got:\n{screen}");
    assert!(
        screen.contains("unpriced \u{2014} uncataloged model"),
        "an unpriced session says so on the cost row:\n{screen}"
    );
}

#[test]
fn an_unsized_model_meters_nothing_rather_than_inventing_a_window() {
    let screen = rendered(&Usage::new(Data { context: None, ..data() }), AREA);

    assert!(screen.contains("unsized model \u{2014} no window to meter"), "got:\n{screen}");
}

#[test]
fn usage_tests_a_tiny_area_draws_without_panicking() {
    for (width, height) in [(1, 1), (4, 3), (20, 5)] {
        rendered(&Usage::new(data()), Rect::new(0, 0, width, height));
    }
}

#[test]
fn nothing_sent_has_no_hit_rate() {
    assert_eq!(Usage::new(Data::default()).cache_hit_rate(), None);
}

#[test]
fn models_come_one_line_each_and_add_up() {
    let mut data = data();
    let mut other = data.turns[0].clone();
    other.model = "gpt-5.6".to_owned();
    other.cost = None;
    data.turns.push(other);
    data.turns.push(data.turns[0].clone());
    let rows = Usage::new(data).by_model();

    assert_eq!(rows.len(), 2);
    let total: u64 = rows.iter().map(|row| row.usage.output_tokens).sum();
    assert_eq!(total, 12);
}

#[test]
fn a_duration_reads_in_its_two_largest_units() {
    assert_eq!(compact_duration(0), "0s");
    assert_eq!(compact_duration(59), "59s");
    assert_eq!(compact_duration(60), "1m");
    assert_eq!(compact_duration(3_600), "1h 0m");
    assert_eq!(compact_duration(86_400), "24h 0m");
}

#[test]
fn a_plan_window_is_named_by_its_limit_where_it_has_one() {
    let mut named = plan("primary", 12.0, None, None);
    assert_eq!(plan_label(&named), "primary \u{b7} no reset reported");
    named.limit_name = Some("bengalfox".to_owned());
    named.window_minutes = Some(300);
    named.reset = Reset::In(90);
    assert_eq!(plan_label(&named), "primary (bengalfox) \u{b7} 5h window, resets in 1m");
}

#[test]
fn turns_that_do_not_fit_are_counted() {
    let mut data = data();
    for _ in 0..40 {
        data.turns.push(data.turns[0].clone());
    }
    let screen = rendered(&Usage::new(data), AREA);

    assert!(screen.contains("earlier turns not shown)"), "got:\n{screen}");
    assert!(screen.contains("[Esc] close"), "got:\n{screen}");
}

#[test]
fn money_is_rounded_once_from_what_it_is() {
    for cost in [0.015, 0.025, 0.125, 0.375, 0.005, 0.994_999, 0.995, 1.005, 2.675, 123.455] {
        let mut data = data();
        data.totals.cost = Some(dollars(cost));
        data.turns[0].cost = Some(dollars(cost));
        let screen = rendered(&Usage::new(data), AREA);
        assert!(screen.contains(&format!("Total cost:      ${cost:.2}")), "{cost}:\n{screen}");
        assert!(screen.contains(&format!("cache write (${cost:.2})")), "{cost}:\n{screen}");
    }
    let mut data = data();
    data.totals.cost = Some(dollars(0.015));
    let screen = rendered(&Usage::new(data), AREA);
    assert!(screen.contains("Total cost:      $0.01"), "got:\n{screen}");
}
