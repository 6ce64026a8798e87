use dbsp::csv::{CsvEncodeError, CsvEncoder, CsvEncoderConfig, CsvInputFormat, CsvOutputFormat,
    CsvParser, RejectSink, VecConsumer, VecSink, default_buffer_size_records, i64_dec,
    split_on_newline, u64_dec};
use dbsp::zset::OrdZSet;

#[test]
fn format_names() {
    assert_eq!(CsvInputFormat.name(), "csv");
    assert_eq!(CsvOutputFormat.name(), "csv");
    assert_eq!(default_buffer_size_records(), 10000);
    let cfg = CsvEncoderConfig::default();
    assert_eq!(cfg.buffer_size_records, 10000);
}

#[test]
fn split_on_newline_finds_last() {
    assert_eq!(split_on_newline(b"ab\ncd"), 3);
    assert_eq!(split_on_newline(b"abc"), 0);
    assert_eq!(split_on_newline(b"a\nb\n"), 4);
    assert_eq!(split_on_newline(b""), 0);
}

#[test]
fn parser_frames_records() {
    let mut parser = CsvParser::new(VecSink::new());
    let (n, errs) = parser.input_fragment(b"1,2\n3,4\n5,");
    assert_eq!(n, 2);
    assert_eq!(errs.len(), 0);
    assert_eq!(parser.input_stream.recs.len(), 2);
    assert_eq!(parser.input_stream.recs[0], b"1,2\n".to_vec());
    assert_eq!(parser.input_stream.recs[1], b"3,4\n".to_vec());
    // the tail after the last newline waits for more input
    assert_eq!(parser.leftover, b"5,".to_vec());
    let (n2, errs2) = parser.eoi();
    assert_eq!(n2, 1);
    assert_eq!(errs2.len(), 0);
    assert_eq!(parser.input_stream.recs.len(), 3);
    assert_eq!(parser.input_stream.recs[2], b"5,".to_vec());
    assert_eq!(parser.leftover.len(), 0);
}

#[test]
fn parser_carries_leftover_across_fragments() {
    let mut parser = CsvParser::new(VecSink::new());
    let (n, _) = parser.input_fragment(b"10,2");
    assert_eq!(n, 0);
    assert_eq!(parser.input_stream.recs.len(), 0);
    let (n2, _) = parser.input_fragment(b"0\n30,40\n");
    assert_eq!(n2, 2);
    assert_eq!(parser.input_stream.recs[0], b"10,20\n".to_vec());
    assert_eq!(parser.input_stream.recs[1], b"30,40\n".to_vec());
}

#[test]
fn parser_reports_rejected_records() {
    let mut parser = CsvParser::new(RejectSink::new());
    let (n, errs) = parser.input_fragment(b"1,2\n3,4\n");
    assert_eq!(n, 0);
    assert_eq!(errs.len(), 2);
    assert_eq!(errs[0].event_number, 1);
    assert_eq!(errs[1].event_number, 2);
    assert_eq!(errs[0].record, b"1,2\n".to_vec());
    assert_eq!(parser.last_event_number, 2);
}

#[test]
fn decimal_rendering() {
    assert_eq!(u64_dec(0).as_str(), "0");
    assert_eq!(u64_dec(7).as_str(), "7");
    assert_eq!(u64_dec(1234).as_str(), "1234");
    assert_eq!(u64_dec(1000000).as_str(), "1000000");
    assert_eq!(i64_dec(-56).as_str(), "-56");
    assert_eq!(i64_dec(0).as_str(), "0");
    assert_eq!(i64_dec(i64::MIN).as_str(), "-9223372036854775808");
}

#[test]
fn encoder_renders_lines() {
    let consumer = VecConsumer { bufs: Vec::new(), max: 1000 };
    let config = CsvEncoderConfig { buffer_size_records: 10 };
    let mut encoder = CsvEncoder::new(consumer, config);
    let batch = OrdZSet::from_tuples(vec![((1usize, 2usize), 3i64), ((4, 5), -6)]);
    let r = encoder.encode(&batch);
    assert!(r.is_ok());
    assert_eq!(encoder.output_consumer.bufs.len(), 1);
    assert_eq!(encoder.output_consumer.bufs[0], b"1,2,3\n4,5,-6\n".to_vec());
}

#[test]
fn encoder_splits_buffers_by_record_count() {
    let consumer = VecConsumer { bufs: Vec::new(), max: 1000 };
    let config = CsvEncoderConfig { buffer_size_records: 1 };
    let mut encoder = CsvEncoder::new(consumer, config);
    let batch = OrdZSet::from_tuples(vec![((1usize, 2usize), 3i64), ((4, 5), 6)]);
    let r = encoder.encode(&batch);
    assert!(r.is_ok());
    assert_eq!(encoder.output_consumer.bufs.len(), 2);
    assert_eq!(encoder.output_consumer.bufs[0], b"1,2,3\n".to_vec());
    assert_eq!(encoder.output_consumer.bufs[1], b"4,5,6\n".to_vec());
}

#[test]
fn encoder_splits_buffers_by_size() {
    // each line is six bytes; a seven-byte limit holds only one
    let consumer = VecConsumer { bufs: Vec::new(), max: 7 };
    let config = CsvEncoderConfig { buffer_size_records: 10 };
    let mut encoder = CsvEncoder::new(consumer, config);
    let batch = OrdZSet::from_tuples(vec![((1usize, 2usize), 3i64), ((4, 5), 6)]);
    let r = encoder.encode(&batch);
    assert!(r.is_ok());
    assert_eq!(encoder.output_consumer.bufs.len(), 2);
    assert_eq!(encoder.output_consumer.bufs[0], b"1,2,3\n".to_vec());
    assert_eq!(encoder.output_consumer.bufs[1], b"4,5,6\n".to_vec());
}

#[test]
fn encoder_rejects_oversized_record() {
    let consumer = VecConsumer { bufs: Vec::new(), max: 4 };
    let config = CsvEncoderConfig { buffer_size_records: 10 };
    let mut encoder = CsvEncoder::new(consumer, config);
    let batch = OrdZSet::from_tuples(vec![((1usize, 2usize), 3i64)]);
    let r = encoder.encode(&batch);
    // the line "1,2,3\n" is six bytes against a four-byte limit
    assert_eq!(
        r,
        Err(CsvEncodeError::RecordTooLarge { limit: 4, size: 6, record: b"1,2,3\n".to_vec() })
    );
    assert_eq!(encoder.output_consumer.bufs.len(), 0);
}

#[test]
fn encoder_quotes_fields_with_separators() {
    // a weight line is plain, but the csv writer must quote fields
    // holding the separator: exercised through the string record form
    let consumer = VecConsumer { bufs: Vec::new(), max: 1000 };
    let config = CsvEncoderConfig { buffer_size_records: 10 };
    let mut encoder = CsvEncoder::new(consumer, config);
    let batch = OrdZSet::from_tuples(vec![((10usize, 20usize), 1i64)]);
    let r = encoder.encode(&batch);
    assert!(r.is_ok());
    assert_eq!(encoder.output_consumer.bufs[0], b"10,20,1\n".to_vec());
}
