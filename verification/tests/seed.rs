use chrono::{TimeZone, Utc};
use prism::seed::{id, next, product, shape, tags, trace, Seeder, PRODUCTS, SHAPES};
use prism::spans::{Span, Status};
use prism::types::{Id, Tags, Timestamp};

fn noon() -> Timestamp {
    let at = Utc.with_ymd_and_hms(2026, 8, 17, 12, 0, 0).unwrap();
    Timestamp::from_micros(at.timestamp_micros()).unwrap()
}

#[test]
fn the_generator_gives_what_it_gave_before() {
    let mut state = 0;

    assert_eq!(next(&mut state), 3807793574716521196);
    assert_eq!(next(&mut state), 13067337806672963146);
    assert_eq!(next(&mut state), 11316391695351618426);
    assert_eq!(state, 11166244414315200793);
}

/// Eight bytes of a word at a time, the least significant first.
#[test]
fn an_id_takes_whole_words() {
    let mut state = 42;
    assert_eq!(id::<16>(&mut state).to_string(), "0b3918876b6807a71c4b30ab8a8615ee");
    assert_eq!(state, 4159066171780167020, "two words");

    let mut state = 7;
    assert_eq!(id::<3>(&mut state).to_string(), "194d61");
    assert_eq!(state, 9098160460397411210, "one word");

    let mut state = 7;
    let nothing: Id<0> = id(&mut state);
    assert_eq!(nothing.to_string(), "");
    assert_eq!(state, 7);
}

fn summary(span: &Span, start: Timestamp) -> (String, String, i64, i64, Status) {
    let millis = |at: Timestamp| (at.micros() - start.micros()) / 1000;
    (
        span.service.clone().unwrap(),
        span.name.clone(),
        millis(span.started_at),
        millis(span.ended_at.unwrap()),
        span.status,
    )
}

#[test]
fn a_trace_nests_its_calls() {
    let mut state = 3;
    let spans = trace(&mut state, noon());
    assert_eq!(state, 16175701042954945135);

    let start = noon().plus_millis(-249);
    let summaries: Vec<_> = spans.iter().map(|span| summary(span, start)).collect();
    assert_eq!(
        summaries,
        [
            ("frontend".to_string(), "GET /api/recommendations".to_string(), 0, 249, Status::Okay),
            (
                "recommendation".to_string(),
                "oteldemo.RecommendationService/ListRecommendations".to_string(),
                6,
                175,
                Status::Error
            ),
            (
                "product-catalog".to_string(),
                "oteldemo.ProductCatalogService/ListProducts".to_string(),
                12,
                91,
                Status::Unset
            ),
        ]
    );

    let ids: Vec<String> = spans.iter().map(|span| span.span_id.to_string()).collect();
    assert_eq!(ids, ["dff4d8fec6da916b", "25cee6f80a310279", "2924205386e962a4"]);
    assert_eq!(spans[0].parent_span_id, None);
    assert_eq!(spans[1].parent_span_id, Some(spans[0].span_id));
    assert_eq!(spans[2].parent_span_id, Some(spans[1].span_id));
    assert_eq!(spans[0].status_message, None);
    assert_eq!(spans[1].status_message.as_deref(), Some("upstream timeout"));
    for span in &spans {
        assert_eq!(span.trace_id.to_string(), "046cc7ec28ff40da96cfdfc44e5ed75a");
        assert_eq!(span.common.received_at, noon());
        assert_eq!(span.common.organization_id, "1");
    }
    assert_eq!(spans[0].tags, Tags::default());
    assert_eq!(
        spans[1].tags,
        Tags::from_iter(vec![
            ("product.sku".to_string(), Some("L9ECAV7KIM".to_string())),
            ("product.name".to_string(), Some("Solar System Color Imager".to_string())),
        ])
    );
}

#[test]
fn a_short_trace_has_one_call() {
    let mut state = 1;
    let spans = trace(&mut state, noon());

    assert_eq!(state, 15490212636682683044);
    assert_eq!(spans.len(), 2);
    let start = noon().plus_millis(-96);
    assert_eq!(
        summary(&spans[1], start),
        ("currency".to_string(), "oteldemo.CurrencyService/Convert".to_string(), 2, 60, Status::Unset)
    );
    assert_eq!(spans[1].tags, Tags::default());
}

/// Whatever the state, nothing outlives the work that spawned it.
#[test]
fn no_call_outlives_its_parent() {
    for seed in 0..2_000 {
        let mut state = seed;
        let spans = trace(&mut state, noon());
        for span in &spans[1..] {
            let parent = spans
                .iter()
                .find(|parent| Some(parent.span_id) == span.parent_span_id)
                .expect("the parent is in the trace");
            assert!(!span.started_at.is_before(&parent.started_at));
            assert!(!parent.ended_at.unwrap().is_before(&span.ended_at.unwrap()));
        }
    }
}

fn tag_list(name: &str) -> Vec<(String, Option<String>)> {
    let tags = tags(name, ("SKU", "Title"));
    (0..tags.len())
        .map(|i| (tags.key(i).to_string(), tags.value(i).map(str::to_string)))
        .collect()
}

fn pair(key: &str, value: &str) -> (String, Option<String>) {
    (key.to_string(), Some(value.to_string()))
}

/// A query says which engine, a catalogue call says which item, and most calls
/// say nothing.
#[test]
fn the_tags_are_those_a_caller_would_set() {
    assert_eq!(tag_list("SELECT products"), [pair("db.system", "postgresql")]);
    assert_eq!(tag_list("COPY"), [pair("db.system", "postgresql")]);
    assert_eq!(tag_list("GET /api/products"), []);
    assert_eq!(tag_list("GET /index.html"), [pair("http.status_code", "200")]);
    assert_eq!(tag_list("HGET cart"), []);
    assert_eq!(
        tag_list("oteldemo.CartService/AddItem"),
        [pair("product.name", "Title"), pair("product.sku", "SKU")]
    );
    assert_eq!(
        tag_list("POST a.CartService"),
        [
            pair("http.status_code", "200"),
            pair("product.name", "Title"),
            pair("product.sku", "SKU")
        ]
    );
}

#[test]
fn there_are_shapes_and_products_enough() {
    let steps: Vec<usize> = (0..SHAPES).map(|i| shape(i).steps.len()).collect();
    assert_eq!(steps, [3, 3, 8, 2, 1, 1, 2, 5]);
    let millis: Vec<i64> = (0..SHAPES).map(|i| shape(i).millis).collect();
    assert_eq!(millis, [180, 240, 1_450, 320, 95, 70, 210, 2_600]);
    assert_eq!(shape(7).service, "load-generator");
    assert_eq!(product(0), ("OLJCESPC7Z", "National Park Foundation Explorascope"));
    assert_eq!(product(PRODUCTS - 1), ("LS4PSXUNUM", "Optical Tube Assembly"));
}

/// Whole traces, until there are enough spans; then the rest.
#[test]
fn seeding_hands_over_whole_traces() {
    let mut seeder = Seeder::new(noon(), 2, 1_000, 5);

    let first = seeder.next_batch().unwrap();
    assert_eq!(first.len(), 4_002);
    assert_eq!(first[0].common.received_at, noon().plus_millis(-146_709_622));

    let mut rows = first.len();
    let mut roots = first.iter().filter(|span| span.parent_span_id.is_none()).count();
    assert_eq!(roots, 973);
    while let Some(batch) = seeder.next_batch() {
        rows += batch.len();
        roots += batch.iter().filter(|span| span.parent_span_id.is_none()).count();
        for span in &batch {
            assert!(!noon().is_before(&span.common.received_at), "none in the future");
            assert!(noon()
                .plus_millis(-2 * 86_400_000)
                .is_before(&span.common.received_at));
        }
    }
    assert_eq!(roots, 2_000, "every trace asked for");
    assert!(rows > 8_000);
    assert!(seeder.next_batch().is_none());
}

/// The same number gives the same store back.
#[test]
fn the_same_seed_gives_the_same_spans() {
    let ids = |seed| {
        let mut seeder = Seeder::new(noon(), 1, 10, seed);
        let batch = seeder.next_batch().unwrap();
        batch.iter().map(|span| span.span_id.to_string()).collect::<Vec<String>>()
    };

    assert_eq!(ids(9), ids(9));
    assert_ne!(ids(9), ids(10));
    assert!(Seeder::new(noon(), 0, 10, 9).next_batch().is_none());
}

/// A run makes the traces asked for, one root each, none of them in the future.
#[test]
fn a_run_seeds_every_trace() {
    let mut seeder = Seeder::new(noon(), 3, 50, 9);
    let mut roots = 0;
    while let Some(rows) = seeder.next_batch() {
        roots += rows.iter().filter(|span| span.parent_span_id.is_none()).count();
        for span in &rows {
            let at = span.common.received_at.micros();
            assert!(span.started_at.micros() <= span.ended_at.unwrap().micros());
            assert!(span.ended_at.unwrap().micros() <= at);
            assert!(at <= noon().micros());
            assert!(noon().micros() - 3 * 86_400_000_000 < at);
        }
    }
    assert_eq!(roots, 150);

    assert!(Seeder::new(noon(), 0, 50, 9).next_batch().is_none());
}

/// Calls that one span made follow one another.
#[test]
fn siblings_do_not_overlap() {
    let mut state = 5;
    for _ in 0..40 {
        let spans = trace(&mut state, noon());
        for (i, first) in spans.iter().enumerate().skip(1) {
            for second in &spans[i + 1..] {
                if first.parent_span_id == second.parent_span_id {
                    assert!(first.ended_at.unwrap().micros() <= second.started_at.micros());
                }
            }
        }
    }
}

/// States that differ give different words, and go on to different states.
#[test]
fn different_states_draw_differently() {
    let (mut one, mut other) = (0, 1);

    assert_ne!(next(&mut one), next(&mut other));
    assert_ne!(one, other);
}

/// Where no trace is to be made, it does not matter how far back they would go.
#[test]
fn no_traces_reach_back_any_distance() {
    assert!(Seeder::new(noon(), 100_000_000_000, 0, 9).next_batch().is_none());
}
