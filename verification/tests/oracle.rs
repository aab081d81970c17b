use hdhunter::is_interesting;
use hdhunter::HttpParam;

#[test]
fn test_oracle_consumed_length_mismatch() {
    // records with one message, status 200 and content length 10 on both
    // sides disagree on the consumed length: interesting
    let mut p1 = HttpParam::new();
    p1.message_count = 1;
    p1.status[0] = 200;
    p1.content_length[0] = 10;
    p1.consumed_length[0] = 10;
    let mut p2 = HttpParam::new();
    p2.message_count = 1;
    p2.status[0] = 200;
    p2.content_length[0] = 10;
    p2.consumed_length[0] = 15;
    assert!(is_interesting(&p1, &p2));
}

#[test]
fn test_oracle_error_skip() {
    // both sides errored on the slot, so a differing declared content
    // length is noise: not interesting
    let mut p1 = HttpParam::new();
    p1.message_count = 1;
    p1.status[0] = 500;
    p1.content_length[0] = 10;
    let mut p2 = HttpParam::new();
    p2.message_count = 1;
    p2.status[0] = 500;
    p2.content_length[0] = 99;
    assert!(!is_interesting(&p1, &p2));
}

#[test]
fn test_oracle_message_count_short_circuits() {
    // a disagreement on the message count alone is interesting
    let mut p1 = HttpParam::new();
    p1.message_count = 1;
    let mut p2 = HttpParam::new();
    p2.message_count = 2;
    assert!(is_interesting(&p1, &p2));
}

#[test]
fn test_oracle_all_sentinel_records_agree() {
    // two never-populated records show no disagreement
    let p1 = HttpParam::new();
    let p2 = HttpParam::new();
    assert!(!is_interesting(&p1, &p2));
}

#[test]
fn test_oracle_body_length_checked_despite_errors() {
    // a body-length mismatch is never skipped, even when both errored
    let mut p1 = HttpParam::new();
    p1.status[0] = 404;
    p1.body_length[0] = 1;
    let mut p2 = HttpParam::new();
    p2.status[0] = 404;
    p2.body_length[0] = 2;
    assert!(is_interesting(&p1, &p2));
}

#[test]
fn test_param_hooks_advance_slots() {
    // the first report after a processed mark opens the next slot
    let mut p = HttpParam::new();
    let active = 1i32;
    p.set_content_length(10, 1, active);
    assert_eq!(p.content_length[0], 10);
    p.inc_consumed_length(4, 1, active);
    p.inc_consumed_length(6, 1, active);
    assert_eq!(p.consumed_length[0], 10);
    p.mark_message_processed(1, active);
    p.set_content_length(7, 1, active);
    assert_eq!(p.message_count, 1);
    assert_eq!(p.content_length[1], 7);
    // a report with a foreign mask is ignored
    p.set_chunked_encoding(1, 2, active);
    assert_eq!(p.chunked_encoding[1], 0);
}

#[test]
fn test_param_clear_resets_sentinels() {
    let mut p = HttpParam::new();
    p.set_content_length(10, 1, 1);
    p.clear();
    assert_eq!(p.content_length[0], -1);
    assert_eq!(p.message_count, 0);
    assert_eq!(p.status[0], 0);
}
