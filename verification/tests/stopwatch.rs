use qs_client::stopwatch::InterpolatedStopwatch;

#[test]
fn new_stopwatch_has_seen_no_event() {
    let watch = InterpolatedStopwatch::new(4, 1_000);
    assert_eq!(watch.ticks, 0);
    assert_eq!(watch.average_time(), 0);
}

#[test]
fn tick_returns_the_time_since_the_event_before() {
    let mut watch = InterpolatedStopwatch::new(3, 1_000);
    assert_eq!(watch.tick(1_010), 10);
    assert_eq!(watch.tick(1_030), 20);
    assert_eq!(watch.tick(1_060), 30);
    assert_eq!(watch.tick(1_100), 40);
    assert_eq!(watch.ticks, 4);
}

#[test]
fn clock_that_goes_back_counts_as_no_time() {
    let mut watch = InterpolatedStopwatch::new(3, 1_000);
    assert_eq!(watch.tick(900), 0);
    assert_eq!(watch.tick(950), 50);
}

#[test]
fn average_spans_the_ring() {
    let mut watch = InterpolatedStopwatch::new(3, 1_000);
    watch.tick(1_010);
    assert_eq!(watch.average_time(), 10 / 3);
    watch.tick(1_030);
    assert_eq!(watch.average_time(), 30 / 3);
    watch.tick(1_060);
    assert_eq!(watch.average_time(), 50 / 3);
    watch.tick(1_100);
    assert_eq!(watch.average_time(), 70 / 3);
    watch.tick(1_400);
    assert_eq!(watch.average_time(), (1_400 - 1_060) / 3);
}

#[test]
fn ring_of_one_time_measures_nothing() {
    let mut watch = InterpolatedStopwatch::new(1, 5);
    assert_eq!(watch.tick(50), 0);
    assert_eq!(watch.tick(80), 0);
    assert_eq!(watch.average_time(), 0);
    assert_eq!(watch.ticks, 2);
}

#[test]
fn stopwatch_over_no_event_can_be_made() {
    let watch = InterpolatedStopwatch::new(0, 5);
    assert_eq!(watch.ticks, 0);
}
