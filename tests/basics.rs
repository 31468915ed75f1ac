use uranus::{add, next_backoff, ReadBuffer, MAX_BACKOFF};

#[test]
fn lib_it_works() {
    let result = add(2, 2);
    assert_eq!(result, 4);
}

#[test]
fn it_works() {
    let result = add(2, 2);
    assert_eq!(result, 4);
}

#[test]
fn accept_backoff_doubles_then_gives_up() {
    assert_eq!(next_backoff(1), Some(2));
    assert_eq!(next_backoff(32), Some(64));
    assert_eq!(next_backoff(MAX_BACKOFF), Some(128));
    assert_eq!(next_backoff(128), None);
    let mut waits = Vec::new();
    let mut backoff = 1;
    while let Some(next) = next_backoff(backoff) {
        waits.push(backoff);
        backoff = next;
    }
    assert_eq!(waits, vec![1, 2, 4, 8, 16, 32, 64]);
}

#[test]
fn read_buffer_counts_bytes() {
    let mut reader = ReadBuffer::new();
    assert_eq!(reader.buffered_len(), 0);
    reader.receive(b"+a\r\n+b");
    assert_eq!(reader.buffered_len(), 6);
    reader.parse_frame().unwrap();
    assert_eq!(reader.buffered_len(), 2);
}
