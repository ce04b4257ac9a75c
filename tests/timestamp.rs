use harrys_lilla_lager::timestamp::event_time;

#[test]
fn stored_time_is_read() {
    assert_eq!(event_time("1970-01-01T00:00:01.500+00:00", 7), 1500);
    assert_eq!(event_time("2024-01-01T01:00:00+01:00", 7), 1_704_067_200_000);
}

#[test]
fn malformed_time_falls_back_to_now() {
    assert_eq!(event_time("yesterday", 7), 7);
    assert_eq!(event_time("", -3), -3);
}
