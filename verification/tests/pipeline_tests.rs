use disk_destroyer::new_buff;
use disk_destroyer::pipeline::GlobalState;
use disk_destroyer::pipeline::Status;
use disk_destroyer::pipeline::run_transfer;
use disk_destroyer::pipeline::Options;

#[test]
fn short_read_scenario() {
    // A 10000-byte source read in 4096-byte blocks: two full reads, then a
    // short 1808-byte read that sets the flag and stops the producer; the
    // rechunker sees all 10000 bytes.
    let source = vec![7u8; 10000];
    let out = run_transfer(&source, 4096, 4096, None, None, 1);
    assert_eq!(out.stats.read_blk, 2);
    assert!(out.stats.read_extra);
    assert_eq!(out.stats.bytes_written, 10000);
}

#[test]
fn end_to_end_scenario() {
    // 5000 zero bytes, 2000-byte reads, 3000-byte writes: reads of
    // 2000, 2000 and a short 1000; one full 3000-byte block, then the
    // flushed 2000-byte remainder; the short write sets the flag.
    let source = vec![0u8; 5000];
    let out = run_transfer(&source, 2000, 3000, None, None, 1);
    assert_eq!(out.stats.read_blk, 2);
    assert!(out.stats.read_extra);
    assert_eq!(out.written.len(), 2);
    assert_eq!(out.written[0].len(), 3000);
    assert_eq!(out.written[1].len(), 2000);
    assert_eq!(out.stats.write_blk, 1);
    assert!(out.stats.write_extra);
    assert_eq!(out.stats.bytes_written, 5000);
    assert_eq!(out.stats.queued, 0);
}

#[test]
fn backpressure_bound_holds() {
    // Each 4096-byte read re-cuts into eight 512-byte blocks, yet the
    // channel never holds more than the configured depth of one.
    let source = vec![1u8; 40960];
    let out = run_transfer(&source, 4096, 512, None, None, 1);
    assert!(out.peak_queued <= 1);
    assert_eq!(out.stats.bytes_written, 40960);
    assert_eq!(out.stats.write_blk, 80);
}

#[test]
fn transfer_preserves_bytes() {
    let source: Vec<u8> = (0u8..=255u8).cycle().take(777).collect();
    let out = run_transfer(&source, 100, 64, None, None, 3);
    let mut all = Vec::new();
    for b in &out.written {
        all.extend_from_slice(b);
    }
    assert_eq!(all, source);
}

#[test]
fn transfer_honours_count() {
    let source = vec![5u8; 10000];
    let out = run_transfer(&source, 1000, 1000, Some(3), None, 1);
    assert_eq!(out.stats.read_blk, 3);
    assert!(!out.stats.read_extra);
    assert_eq!(out.stats.bytes_written, 3000);
}

#[test]
fn transfer_honours_input_skip() {
    let mut source = vec![0u8; 600];
    for (i, b) in source.iter_mut().enumerate() {
        *b = (i % 251) as u8;
    }
    let out = run_transfer(&source, 100, 100, None, Some(2), 1);
    assert_eq!(out.stats.read_blk, 4);
    assert!(out.stats.read_extra);
    assert_eq!(out.stats.bytes_written, 400);
    assert_eq!(out.written[0].as_slice(), &source[200..300]);
}

#[test]
fn skip_beyond_source_reads_nothing() {
    let source = vec![9u8; 100];
    let out = run_transfer(&source, 64, 64, None, Some(5), 1);
    assert_eq!(out.stats.read_blk, 0);
    assert!(out.stats.read_extra);
    assert_eq!(out.stats.bytes_written, 0);
    assert!(out.written.is_empty());
}

#[test]
fn empty_source_short_reads_immediately() {
    let source: Vec<u8> = Vec::new();
    let out = run_transfer(&source, 512, 512, None, None, 1);
    assert_eq!(out.stats.read_blk, 0);
    assert!(out.stats.read_extra);
    assert_eq!(out.stats.bytes_written, 0);
}

#[test]
fn parse_units_plain_and_suffixed() {
    assert_eq!(Options::parse_units(&b"512".to_vec()), Some(512));
    assert_eq!(Options::parse_units(&b"64K".to_vec()), Some(64 * 1024));
    assert_eq!(Options::parse_units(&b"10kB".to_vec()), Some(10 * 1000));
    assert_eq!(Options::parse_units(&b"1MB".to_vec()), Some(1_000_000));
    assert_eq!(Options::parse_units(&b"2M".to_vec()), Some(2 * 1024 * 1024));
    assert_eq!(Options::parse_units(&b"3G".to_vec()), Some(3 * 1024 * 1024 * 1024));
    assert_eq!(Options::parse_units(&b"1T".to_vec()), Some(1024usize.pow(4)));
}

#[test]
fn parse_units_rejects_malformed() {
    assert_eq!(Options::parse_units(&b"".to_vec()), None);
    assert_eq!(Options::parse_units(&b"K".to_vec()), None);
    assert_eq!(Options::parse_units(&b"12x".to_vec()), None);
    assert_eq!(Options::parse_units(&b"-5".to_vec()), None);
    assert_eq!(Options::parse_units(&b"1.5K".to_vec()), None);
    assert_eq!(Options::parse_units(&b"99999999999999999999999999".to_vec()), None);
}

#[test]
fn units_map_values() {
    let units = Options::units_map();
    assert_eq!(units.len(), 10);
    assert_eq!(units[0], (b"kB".to_vec(), 1000));
    assert_eq!(units[1], (b"K".to_vec(), 1024));
    assert_eq!(units[3], (b"M".to_vec(), 1024 * 1024));
    assert_eq!(units[7], (b"T".to_vec(), 1024u64.pow(4)));
}

#[test]
fn status_parse_ignores_case() {
    assert_eq!(Status::try_from(&b"none".to_vec()), Ok(Status::Default));
    assert_eq!(Status::try_from(&b"NONE".to_vec()), Ok(Status::Default));
    assert_eq!(Status::try_from(&b"NoXfer".to_vec()), Ok(Status::NoXFer));
    assert_eq!(Status::try_from(&b"progress".to_vec()), Ok(Status::Progress));
    assert_eq!(Status::try_from(&b"verbose".to_vec()), Err(()));
    assert_eq!(Status::try_from(&b"".to_vec()), Err(()));
}

#[test]
fn fresh_counters_are_zero() {
    let mut s = GlobalState::new();
    assert_eq!(s.queued, 0);
    assert_eq!(s.read_blk, 0);
    assert!(!s.read_extra);
    assert_eq!(s.write_blk, 0);
    assert!(!s.write_extra);
    assert_eq!(s.bytes_written, 0);
    assert!(s.started.is_none());
    s.cfg_time(12345);
    assert_eq!(s.started, Some(12345));
}

#[test]
fn new_buff_is_zeroed() {
    let b = new_buff(513);
    assert_eq!(b.len(), 513);
    assert!(b.iter().all(|x| *x == 0));
}
