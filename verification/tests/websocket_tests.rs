use std::sync::Arc;

use ship_server::websocket::{
    assert_or_error, close_message, pong_message, read_ws_message, unmask, OutboundWsMessage, OutputQueue,
    WsByteMaskMap, WsEvent, WsReadError,
};

#[test]
fn short_message_is_one_frame() {
    let m = OutboundWsMessage::from(&vec![1u8, 2, 3]);
    assert_eq!(*m.0, vec![0x82u8, 3, 1, 2, 3]);
}

#[test]
fn empty_message_has_no_frame() {
    let m = OutboundWsMessage::from(&Vec::new());
    assert!(m.0.is_empty());
}

#[test]
fn medium_message_uses_two_length_bytes() {
    let data = vec![7u8; 200];
    let m = OutboundWsMessage::from(&data);
    assert_eq!(&m.0[..4], &[0x82u8, 126, 0, 200]);
    assert_eq!(m.0.len(), 4 + 200);
}

#[test]
fn message_of_125_bytes_keeps_the_short_form() {
    let m = OutboundWsMessage::from(&vec![0u8; 125]);
    assert_eq!(&m.0[..2], &[0x82u8, 125]);
}

#[test]
fn long_message_uses_eight_length_bytes() {
    let data = vec![9u8; 70000];
    let m = OutboundWsMessage::from(&data);
    assert_eq!(&m.0[..10], &[0x82u8, 127, 0, 0, 0, 0, 0, 1, 0x11, 0x70]);
    assert_eq!(m.0.len(), 10 + 70000);
}

#[test]
fn pong_and_close_frames() {
    assert_eq!(*pong_message().0, vec![0x8Au8, 0]);
    assert_eq!(*close_message().0, vec![0x88u8, 0]);
}

#[test]
fn assert_or_error_values() {
    assert_eq!(assert_or_error(true), Ok(()));
    assert_eq!(assert_or_error(false), Err(()));
}

#[test]
fn masked_binary_header_is_read() {
    let buf = [0x82u8, 0x85, 1, 2, 3, 4, 9, 9];
    let mut i = 0usize;
    let ev = read_ws_message(&buf, &mut i);
    assert_eq!(ev, Ok(WsEvent::Message { payload_len: 5, mask_0: 1, mask_1: 2, mask_2: 3, mask_3: 4 }));
    assert_eq!(i, 6);
}

#[test]
fn extended_length_header_is_read() {
    let buf = [0x82u8, 0xFE, 0x01, 0x00, 5, 6, 7, 8];
    let mut i = 0usize;
    let ev = read_ws_message(&buf, &mut i);
    assert_eq!(ev, Ok(WsEvent::Message { payload_len: 256, mask_0: 5, mask_1: 6, mask_2: 7, mask_3: 8 }));
    assert_eq!(i, 8);
}

#[test]
fn ping_and_pong_headers() {
    let mut i = 0usize;
    assert_eq!(read_ws_message(&[0x89u8, 0x80, 0, 0, 0, 0], &mut i), Ok(WsEvent::Ping));
    let mut j = 0usize;
    assert_eq!(read_ws_message(&[0x8Au8, 0x80, 0, 0, 0, 0], &mut j), Ok(WsEvent::Pong));
}

#[test]
fn unmasked_fragmented_and_text_frames_are_refused() {
    let mut i = 0usize;
    assert_eq!(read_ws_message(&[0x82u8, 0x05, 0, 0, 0, 0], &mut i), Err(WsReadError::Invalid));
    assert_eq!(i, 0);
    assert_eq!(read_ws_message(&[0x02u8, 0x85, 0, 0, 0, 0], &mut i), Err(WsReadError::Invalid));
    assert_eq!(read_ws_message(&[0x81u8, 0x85, 0, 0, 0, 0], &mut i), Err(WsReadError::Invalid));
}

#[test]
fn short_header_is_incomplete() {
    let mut i = 0usize;
    assert_eq!(read_ws_message(&[0x82u8, 0x85, 1], &mut i), Err(WsReadError::Incomplete));
    assert_eq!(read_ws_message(&[], &mut i), Err(WsReadError::Incomplete));
}

#[test]
fn unmasking_xors_with_the_key() {
    let out = unmask(&[1u8, 2, 3, 4, 5], [1, 1, 1, 1]);
    assert_eq!(out, vec![0u8, 3, 2, 5, 4]);
}

#[test]
fn unmasking_twice_restores_the_payload() {
    let payload = [10u8, 20, 30, 40, 50, 60];
    let key = [0xAAu8, 0x55, 0x0F, 0xF0];
    assert_eq!(unmask(&unmask(&payload, key), key), payload.to_vec());
}

#[test]
fn byte_mask_map_counts_bytes() {
    let mut m = WsByteMaskMap::new([0xFF, 0, 0, 0]);
    assert_eq!(m.poll_next(0x0F), 0xF0);
    assert_eq!(m.poll_next(0x0F), 0x0F);
    assert_eq!(m.i, 2);
}

fn drain(queue: &mut OutputQueue, step: usize) -> Vec<u8> {
    let mut out = Vec::new();
    while let Some((message, offset)) = queue.next_write() {
        let left = &message[offset..];
        let n = step.min(left.len());
        out.extend_from_slice(&left[..n]);
        queue.wrote(n);
    }
    out
}

#[test]
fn queued_bytes_leave_in_order_whatever_the_write_sizes() {
    for step in 1..6 {
        let mut queue = OutputQueue::new();
        assert!(queue.is_empty());
        queue.queue_send(Arc::new(vec![1, 2, 3]));
        queue.queue_send(Arc::new(vec![]));
        queue.queue_send(Arc::new(vec![4, 5, 6, 7]));
        assert!(!queue.is_empty());
        assert_eq!(drain(&mut queue, step), vec![1, 2, 3, 4, 5, 6, 7]);
        assert!(queue.is_empty());
    }
}

#[test]
fn a_partial_write_resumes_where_it_stopped() {
    let mut queue = OutputQueue::new();
    queue.queue_send(Arc::new(vec![10, 11, 12, 13]));
    queue.wrote(3);
    let (message, offset) = queue.next_write().expect("one message left");
    assert_eq!(offset, 3);
    assert_eq!(&message[offset..], &[13]);
    queue.queue_send(Arc::new(vec![14]));
    queue.wrote(5);
    let (message, offset) = queue.next_write().expect("the second message");
    assert_eq!(offset, 0);
    assert_eq!(message.as_slice(), &[14]);
}
