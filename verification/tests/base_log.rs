use tush::base::log::{Log, LogBuffer, LogWriterRef};

#[test]
fn log() {
    let mut log = Log::new(3);
    let mut buffer = log.new_buffer();
    let mut writer = log.writer();
    writer.write_line("oi");
    writer.write_line("tudo");
    writer.write_line("bem");

    let expected_a = vec!["oi", "tudo", "bem"];
    assert_log(&log, &mut buffer, &expected_a);
    let mut writer = log.writer();
    writer.write_line("com");
    writer.write_line("você");

    let expected_b = vec!["bem", "com", "você"];
    assert_log(&log, &mut buffer, &expected_b);
}

fn assert_log(log: &Log, buffer: &mut LogBuffer, expected: &[&str]) {
    log.update_buffer(buffer);
    let values: Vec<String> = buffer.lines();
    assert_eq!(&values, expected);
}

/// A snapshot does not move until it is refreshed, and forcing a refresh
/// leaves it where refreshing would have.
#[test]
fn a_snapshot_moves_only_when_it_is_refreshed() {
    let mut log = Log::new(2);
    log.write_line("um");
    let mut buffer = log.new_buffer();
    log.write_line("dois");
    log.write_line("tres");
    assert_eq!(buffer.lines(), ["um"]);

    let mut forced = log.new_buffer();
    log.force_update_buffer(&mut forced);
    log.update_buffer(&mut buffer);
    assert_eq!(buffer.lines(), ["dois", "tres"]);
    assert_eq!(forced.lines(), ["dois", "tres"]);
    assert_eq!((buffer.len(), buffer.line(1)), (2, "tres"));
}

/// A writer whose log is gone does nothing.
#[test]
fn a_writer_outlives_its_log() {
    let mut writer = LogWriterRef { inner: None };
    writer.write_line("ninguem");
    assert!(writer.inner.is_none());
}
