use logy::clock::{
    bucket_of, elapsed_text, read_millis, render_name, start_of_bucket, BUCKET_MILLIS,
    BUCKET_SECONDS,
};
use logy::pattern::Pattern;

const PREFIX: &str = r#"^(\d{4}-\d{2}-\d{2} \d{2}:\d{2}:\d{2}.\d{3})"#;
const TIME_FORMAT: &str = "%Y-%m-%d %H:%M:%S%.3f";

#[test]
fn bucket_is_the_hour_rounded_down() {
    assert_eq!(BUCKET_MILLIS, 3_600_000);
    assert_eq!(BUCKET_SECONDS, 3_600);
    assert_eq!(bucket_of(0), 0);
    assert_eq!(bucket_of(1), 0);
    assert_eq!(bucket_of(3_599_999), 0);
    assert_eq!(bucket_of(3_600_000), 1);
    assert_eq!(bucket_of(7_199_999), 1);
    assert_eq!(bucket_of(1_632_686_400_123), 453_524);
    assert_eq!(bucket_of(1_632_689_999_999), 453_524);
    assert_eq!(bucket_of(1_632_690_000_000), 453_525);
}

#[test]
fn bucket_of_a_time_before_the_epoch_rounds_down_too() {
    assert_eq!(bucket_of(-1), -1);
    assert_eq!(bucket_of(-3_599_999), -1);
    assert_eq!(bucket_of(-3_600_000), -1);
    assert_eq!(bucket_of(-3_600_001), -2);
    assert_eq!(bucket_of(-7_200_000), -2);
}

#[test]
fn bucket_of_the_extremes() {
    assert_eq!(bucket_of(i64::MAX), 2_562_047_788_015);
    assert_eq!(bucket_of(i64::MIN), -2_562_047_788_016);
    for millis in [i64::MIN, -5_000_000_000, -1, 0, 1, 5_000_000_000, i64::MAX] {
        assert_eq!(bucket_of(millis), millis.div_euclid(3_600_000));
    }
}

#[test]
fn start_of_bucket_is_in_seconds() {
    assert_eq!(start_of_bucket(0), Some(0));
    assert_eq!(start_of_bucket(1), Some(3_600));
    assert_eq!(start_of_bucket(-2), Some(-7_200));
    assert_eq!(start_of_bucket(453_524), Some(1_632_686_400));
    assert_eq!(start_of_bucket(i64::MAX), None);
    assert_eq!(start_of_bucket(i64::MIN), None);
    assert_eq!(start_of_bucket(i64::MAX / 3_600), Some((i64::MAX / 3_600) * 3_600));
    assert_eq!(start_of_bucket(i64::MAX / 3_600 + 1), None);
}

#[test]
fn read_millis_reads_the_captured_timestamp() {
    let pattern = Pattern::new(PREFIX).unwrap();
    assert_eq!(
        read_millis(&pattern, TIME_FORMAT, "2021-09-26 20:00:00.123 INFO started"),
        Some(1_632_686_400_123)
    );
    assert_eq!(
        read_millis(&pattern, TIME_FORMAT, "1970-01-01 00:00:00.000 epoch"),
        Some(0)
    );
    assert_eq!(
        read_millis(&pattern, TIME_FORMAT, "1969-12-31 23:59:59.999 before"),
        Some(-1)
    );
    assert_eq!(
        read_millis(&pattern, TIME_FORMAT, "2021-09-26 20:00:00.123\n  at line two"),
        Some(1_632_686_400_123)
    );
}

#[test]
fn read_millis_is_none_without_a_timestamp() {
    let pattern = Pattern::new(PREFIX).unwrap();
    assert_eq!(read_millis(&pattern, TIME_FORMAT, "no timestamp at all"), None);
    assert_eq!(read_millis(&pattern, TIME_FORMAT, ""), None);
    // matched by the pattern, refused by the calendar
    assert_eq!(read_millis(&pattern, TIME_FORMAT, "2021-13-45 20:00:00.123 x"), None);
    // matched by the pattern, but the format asks for something else
    assert_eq!(read_millis(&pattern, "%d/%m/%Y", "2021-09-26 20:00:00.123 x"), None);
    // a pattern without a group captures nothing
    let bare = Pattern::new(r"^\d{4}").unwrap();
    assert_eq!(read_millis(&bare, TIME_FORMAT, "2021-09-26 20:00:00.123 x"), None);
}

#[test]
fn render_name_fills_in_the_start_of_the_bucket() {
    assert_eq!(
        render_name("output.%Y%m%d-%H.log", 0),
        Some("output.19700101-00.log".to_string())
    );
    assert_eq!(
        render_name("output.%Y%m%d-%H.log", 1),
        Some("output.19700101-01.log".to_string())
    );
    assert_eq!(
        render_name("output.%Y%m%d-%H.log", 453_524),
        Some("output.20210926-20.log".to_string())
    );
    assert_eq!(
        render_name("out/%Y/%m/%d/%H.log.gz", 453_525),
        Some("out/2021/09/26/21.log.gz".to_string())
    );
    assert_eq!(render_name("old.%Y%m%d-%H", -1), Some("old.19691231-23".to_string()));
}

#[test]
fn render_name_leaves_a_plain_name_as_it_is() {
    assert_eq!(render_name("traced.output.log", 0), Some("traced.output.log".to_string()));
    assert_eq!(
        render_name("traced.output.log", 453_524),
        Some("traced.output.log".to_string())
    );
    assert_eq!(render_name("", 7), Some("".to_string()));
}

#[test]
fn render_name_is_none_where_the_name_cannot_be_rendered() {
    // no such placeholder
    assert_eq!(render_name("output.%Q.log", 0), None);
    // a time has no zone offset
    assert_eq!(render_name("output.%z.log", 0), None);
    // the bucket starts beyond what seconds can count
    assert_eq!(render_name("output.%Y.log", i64::MAX), None);
    // the bucket starts beyond the calendar
    assert_eq!(render_name("output.%Y.log", i64::MAX / 3_600), None);
}

#[test]
fn elapsed_text_states_the_duration() {
    assert_eq!(elapsed_text(9_000), Some("PT9S".to_string()));
    assert_eq!(elapsed_text(0), Some("P0D".to_string()));
    assert_eq!(elapsed_text(1_500), Some("PT1.5S".to_string()));
    assert_eq!(elapsed_text(10), Some("PT0.01S".to_string()));
    assert_eq!(elapsed_text(3_600_000), Some("PT3600S".to_string()));
    assert_eq!(elapsed_text(-9_000), Some("-PT9S".to_string()));
}

#[test]
fn elapsed_text_covers_every_duration_but_the_least() {
    assert!(elapsed_text(i64::MAX).is_some());
    assert!(elapsed_text(i64::MIN + 1).is_some());
    assert_eq!(elapsed_text(i64::MIN), None);
}
