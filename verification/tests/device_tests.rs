use rust_miscdev::device::BUFFER_SIZE;
use rust_miscdev::device::DeviceState;

#[test]
fn new_buffer_is_zero_filled() {
    let d = DeviceState::new();
    let r = d.read(0, BUFFER_SIZE);
    assert_eq!(r.len(), BUFFER_SIZE);
    assert!(r.iter().all(|&b| b == 0));
}

#[test]
fn write_hello_then_read_back() {
    let mut d = DeviceState::new();
    let hello: Vec<u8> = b"hello".to_vec();
    let n = d.write(0, &hello);
    assert_eq!(n, 5);
    let r = d.read(0, 5);
    assert_eq!(r.len(), 5);
    assert_eq!(r, hello);
}

#[test]
fn write_then_read_back_at_offset() {
    let mut d = DeviceState::new();
    let data: Vec<u8> = vec![1, 2, 3, 4];
    let n = d.write(100, &data);
    assert_eq!(n, 4);
    let r = d.read(100, 10);
    assert_eq!(r.len(), 10);
    assert_eq!(&r[..4], &data[..]);
    assert_eq!(&r[4..], &[0u8; 6]);
}

#[test]
fn write_fills_to_end() {
    let mut d = DeviceState::new();
    let data: Vec<u8> = vec![0xAB; 4086];
    let n = d.write(10, &data);
    assert_eq!(n, 4086);
    let r = d.read(10, 4086);
    assert_eq!(r, data);
    let last = d.read(BUFFER_SIZE - 1, 1);
    assert_eq!(last, vec![0xAB]);
}

#[test]
fn overflowing_write_rejected_whole() {
    let mut d = DeviceState::new();
    let marker: Vec<u8> = vec![7; 6];
    assert_eq!(d.write(4090, &marker), 6);
    let data: Vec<u8> = vec![0xFF; 10];
    let n = d.write(4090, &data);
    assert_eq!(n, 0);
    let r = d.read(4090, 6);
    assert_eq!(r, marker);
    assert_eq!(d.read(4080, 10), vec![0; 10]);
}

#[test]
fn read_at_buffer_size_returns_nothing() {
    let mut d = DeviceState::new();
    let data: Vec<u8> = vec![1; BUFFER_SIZE];
    assert_eq!(d.write(0, &data), BUFFER_SIZE);
    let r = d.read(BUFFER_SIZE, 100);
    assert_eq!(r.len(), 0);
}

#[test]
fn read_past_end_returns_nothing() {
    let d = DeviceState::new();
    let r = d.read(5000, 100);
    assert_eq!(r.len(), 0);
}

#[test]
fn write_past_end_rejected() {
    let mut d = DeviceState::new();
    let data: Vec<u8> = vec![9; 3];
    let n = d.write(5000, &data);
    assert_eq!(n, 0);
    let r = d.read(0, BUFFER_SIZE);
    assert!(r.iter().all(|&b| b == 0));
}

#[test]
fn zero_capacity_read_returns_nothing() {
    let mut d = DeviceState::new();
    let data: Vec<u8> = vec![5; 8];
    assert_eq!(d.write(0, &data), 8);
    let r = d.read(0, 0);
    assert_eq!(r.len(), 0);
}

#[test]
fn read_truncated_at_buffer_end() {
    let mut d = DeviceState::new();
    let data: Vec<u8> = vec![3; 6];
    assert_eq!(d.write(4090, &data), 6);
    let r = d.read(4090, 100);
    assert_eq!(r.len(), 6);
    assert_eq!(r, data);
}

#[test]
fn writing_twice_same_as_once() {
    let mut once = DeviceState::new();
    let mut twice = DeviceState::new();
    let data: Vec<u8> = b"repeat".to_vec();
    assert_eq!(once.write(50, &data), 6);
    assert_eq!(twice.write(50, &data), 6);
    assert_eq!(twice.write(50, &data), 6);
    assert_eq!(once.read(0, BUFFER_SIZE), twice.read(0, BUFFER_SIZE));
}

#[test]
fn disjoint_writes_keep_both() {
    let mut d = DeviceState::new();
    let first: Vec<u8> = vec![0x11; 5];
    let second: Vec<u8> = vec![0x22; 5];
    assert_eq!(d.write(0, &first), 5);
    assert_eq!(d.write(100, &second), 5);
    assert_eq!(d.read(0, 5), first);
    assert_eq!(d.read(100, 5), second);
}

#[test]
fn empty_write_at_buffer_size_is_noop() {
    let mut d = DeviceState::new();
    let empty: Vec<u8> = Vec::new();
    let n = d.write(BUFFER_SIZE, &empty);
    assert_eq!(n, 0);
    let r = d.read(0, BUFFER_SIZE);
    assert!(r.iter().all(|&b| b == 0));
}

#[test]
fn read_capacity_larger_than_buffer() {
    let mut d = DeviceState::new();
    let hello: Vec<u8> = b"hello".to_vec();
    assert_eq!(d.write(0, &hello), 5);
    let r = d.read(0, BUFFER_SIZE + 100);
    assert_eq!(r.len(), BUFFER_SIZE);
    assert_eq!(&r[..5], b"hello");
    assert!(r[5..].iter().all(|&b| b == 0));
}
