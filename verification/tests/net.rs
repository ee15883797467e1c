use lexikon::event_loop::nonblocking_flags;
use lexikon::net::{frame_length, length_header, reply_to, write_windows, ReadFull};
use lexikon::{ClientError, ReadError, ServerError, SockAddr, WriteError};

#[test]
fn sock_addr_puts_port_and_address_in_network_order() {
    let addr = SockAddr::new(2, 0x7f000001, 1234);
    assert_eq!(addr.sa_len, 16);
    assert_eq!(addr.sa_family, 2);
    assert_eq!(addr.sa_data, [0x04, 0xd2, 0x7f, 0, 0, 1, 0, 0, 0, 0, 0, 0, 0, 0]);
}

#[test]
fn header_round_trip() {
    let header = length_header(300).expect("fits");
    assert_eq!(header, vec![0x2c, 0x01, 0, 0]);
    assert_eq!(frame_length(&header).expect("complete"), Some(300));
}

#[test]
fn frame_length_cases() {
    assert_eq!(frame_length(&[]).expect("empty"), None);
    assert!(matches!(frame_length(&[1, 2]), Err(ReadError::InvalidRange(0, 4))));
    assert_eq!(frame_length(&[5, 0, 0, 0, 9]).expect("complete"), Some(5));
}

#[test]
fn length_header_refuses_huge_lengths() {
    if usize::MAX > u32::MAX as usize {
        let too_long = u32::MAX as usize + 1;
        assert!(matches!(length_header(too_long), Err(WriteError::TryFromIntError(_))));
    }
}

#[test]
fn write_windows_cover_the_buffer() {
    assert_eq!(write_windows(0), vec![]);
    assert_eq!(write_windows(64), vec![(0, 64)]);
    assert_eq!(write_windows(150), vec![(0, 64), (64, 128), (128, 150)]);
}

#[test]
fn read_full_collects_chunks() {
    let mut state = ReadFull::new(70);
    assert_eq!(state.next_read_len(), 64);
    let buffer = [7u8; 64];
    assert_eq!(state.on_read(&buffer, 64).expect("ok"), false);
    assert_eq!(state.next_read_len(), 6);
    assert_eq!(state.on_read(&buffer, 6).expect("ok"), true);
    assert_eq!(state.next_read_len(), 0);
    assert_eq!(state.into_data(), vec![7u8; 70]);
}

#[test]
fn read_full_stops_at_end_of_file() {
    let mut state = ReadFull::new(10);
    let buffer = [1u8; 64];
    assert_eq!(state.on_read(&buffer, 3).expect("ok"), false);
    assert_eq!(state.on_read(&buffer, 0).expect("ok"), true);
    assert_eq!(state.into_data(), vec![1u8; 3]);
}

#[test]
fn read_full_refuses_bad_counts() {
    let mut state = ReadFull::new(10);
    let buffer = [0u8; 64];
    assert!(matches!(state.on_read(&buffer, 65), Err(ReadError::InvalidRange(0, 65))));
    assert!(matches!(state.on_read(&buffer, -2), Err(ReadError::TryFromIntError(_))));
    assert_eq!(state.next_read_len(), 10);
}

#[test]
fn nonblocking_flag_is_added() {
    assert_eq!(nonblocking_flags(0), 4);
    assert_eq!(nonblocking_flags(3), 7);
    assert_eq!(nonblocking_flags(4), 4);
}

#[test]
fn reply_to_empty_message_closes() {
    assert_eq!(reply_to(&[]), None);
    assert_eq!(reply_to(b"ping"), Some(b"HTTP/1.1 200 OK\n\nhello".to_vec()));
}

#[test]
fn message_round_trip_through_windows_and_reads() {
    let body: Vec<u8> = (0..150u32).map(|i| (i % 251) as u8).collect();
    let mut stream = length_header(body.len()).expect("fits");
    for (start, end) in write_windows(body.len()) {
        stream.extend_from_slice(&body[start..end]);
    }
    let len = frame_length(&stream[0..4]).expect("complete").expect("message");
    assert_eq!(len, 150);
    let mut state = ReadFull::new(len);
    let mut pos = 4;
    let mut buffer = [0u8; 64];
    loop {
        let ask = state.next_read_len();
        if ask == 0 {
            break;
        }
        let got = if ask > 10 { ask - 10 } else { ask };
        buffer[..got].copy_from_slice(&stream[pos..pos + got]);
        pos += got;
        if state.on_read(&buffer, got as i32).expect("ok") {
            break;
        }
    }
    assert_eq!(state.into_data(), body);
}

#[test]
fn errors_convert_into_server_and_client_errors() {
    let read = ReadError::InvalidRange(0, 4);
    assert!(matches!(ServerError::from(read), ServerError::ReadError(ReadError::InvalidRange(0, 4))));
    let write = WriteError::InvalidRange(1, 2);
    assert!(matches!(ClientError::from(write), ClientError::WriteError(WriteError::InvalidRange(1, 2))));
    let io = std::io::Error::new(std::io::ErrorKind::Other, "closed");
    assert!(matches!(ReadError::from(io), ReadError::StdIOError(_)));
}
