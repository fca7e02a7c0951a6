use obscura::frame_queue::{FrameQueues, MAX_PENDING_FRAME_BYTES, MAX_PENDING_FRAME_DOCUMENTS};

#[test]
fn frame_documents_get_increasing_ids_until_the_queue_is_full() {
    let mut q = FrameQueues::new();
    let mut last = 0;
    for i in 0..MAX_PENDING_FRAME_DOCUMENTS {
        let id = q.frame_document_ready(0, "https://f.example/", "<p>x</p>", 300, 150, i as u64);
        assert_eq!(id, last + 1);
        last = id;
    }
    assert_eq!(q.frame_document_ready(0, "https://f.example/", "", 1, 1, 0), 0);
}

#[test]
fn an_oversized_frame_document_is_refused() {
    let mut q = FrameQueues::new();
    let big = "x".repeat(MAX_PENDING_FRAME_BYTES);
    assert_eq!(q.frame_document_ready(0, "u", &big, 1, 1, 0), 0);
    let fits = "x".repeat(MAX_PENDING_FRAME_BYTES - 1);
    assert_eq!(q.frame_document_ready(0, "u", &fits, 1, 1, 0), 1);
    assert_eq!(q.frame_document_ready(0, "", "", 1, 1, 0), 2);
    assert_eq!(q.frame_document_ready(0, "v", "", 1, 1, 0), 0);
}

#[test]
fn document_write_replaces_markup_within_the_byte_cap() {
    let mut q = FrameQueues::new();
    let id = q.frame_document_ready(0, "about:blank", "", 10, 10, u64::MAX);
    assert!(q.frame_document_write(id as u64, "<b>hi</b>"));
    assert!(!q.frame_document_write(99, "<b>hi</b>"));
    let too_big = "x".repeat(MAX_PENDING_FRAME_BYTES);
    assert!(!q.frame_document_write(id as u64, &too_big));
    let just_fits = "x".repeat(MAX_PENDING_FRAME_BYTES - "about:blank".len());
    assert!(q.frame_document_write(id as u64, &just_fits));
}

#[test]
fn messages_over_either_cap_are_dropped() {
    let mut q = FrameQueues::new();
    assert!(q.post_frame_message(1, 0, "https://a.example", "{\"a\":1}", 2, 100));
    assert!(q.post_frame_message(1, 0, "https://a.example", "{}", 2, 100));
    assert!(!q.post_frame_message(1, 0, "https://a.example", "{}", 2, 100));
    assert!(q.post_frame_message(1, 0, "https://a.example", "{}", 3, 11));
    assert!(!q.post_frame_message(1, 0, "https://a.example", "{}", 4, 12));
    assert!(q.post_frame_message(1, 0, "https://a.example", "", 4, 11));
}
