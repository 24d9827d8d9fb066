use msrtc_rans::buffer::{
    align_size, BufferError, HeapResizableBuffer, ResizableBuffer, ResizableBufferSink,
};


#[test]
fn test_align_size() {
    assert_eq!(align_size(512, true), 512);
    assert_eq!(align_size(513, true), 512);
    assert_eq!(align_size(520, true), 512);
    assert_eq!(align_size(528, true), 528);
    assert_eq!(align_size(1000, false), 992);
}

#[test]
fn test_heap_buffer_initial_size() {
    let b = HeapResizableBuffer::new(0, 1024 * 1024);
    assert_eq!(b.capacity(), 512);
    let b2 = HeapResizableBuffer::new(100, 1024 * 1024);
    assert_eq!(b2.capacity(), 512);
    let b3 = HeapResizableBuffer::new(4096, 1024 * 1024);
    assert_eq!(b3.capacity(), 4096);
}

#[test]
fn test_growth_policy() {
    // BeginToGrow: newSize = old + min(old, maxStep)
    // maxSizeStep is floored at MIN_BUFFER_SIZE (512): max(align(256,false), 512) = 512
    let mut b = HeapResizableBuffer::new(512, 256);
    let new = b.begin_to_grow().expect("grow");
    assert_eq!(new.len(), 512 + 512);
    b.commit();
    assert_eq!(b.capacity(), 1024);

    let new2 = b.begin_to_grow().expect("grow2");
    assert_eq!(new2.len(), 1024 + 512);
    b.rollback();
    assert_eq!(b.capacity(), 1024, "rollback must restore");
}

#[test]
fn test_capped_growth_step() {
    // maxSizeStep floored at 512; growth capped at min(old, 512)
    let mut b = HeapResizableBuffer::new(4096, 256);
    let new = b.begin_to_grow().expect("grow");
    // 4096 + min(4096, 512) = 4096 + 512 = 4608
    assert_eq!(new.len(), 4608);
    b.commit();
    assert_eq!(b.capacity(), 4608);
}

#[test]
fn test_u8_sink_writes_backward() {
    let mut buffer = HeapResizableBuffer::new(512, 256);
    let mut sink = ResizableBufferSink::<u8>::new(&mut buffer);
    sink.write_u8(0xAB);
    sink.write_u8(0xCD);
    assert_eq!(sink.len(), 2);
    // Written backward: first write is LAST in the encoded span
    assert_eq!(sink.encoded_bytes(), &[0xCD, 0xAB]);
}

#[test]
fn test_u8_sink_growth_preserves_content() {
    // 8-byte buffer; write 10 bytes to force growth
    let mut buffer = HeapResizableBuffer::new(8, 4);
    let mut sink = ResizableBufferSink::<u8>::new(&mut buffer);
    for i in 0..10u8 {
        sink.write_u8(i);
    }
    assert_eq!(sink.len(), 10);
    let enc = sink.encoded_bytes();
    for i in 0..10u8 {
        assert_eq!(enc[(9 - i) as usize], i, "mismatch at {}", i);
    }
}

#[test]
fn test_u32_sink_bytes() {
    let mut buffer = HeapResizableBuffer::new(64, 16);
    let mut sink = ResizableBufferSink::<u32>::new(&mut buffer);
    sink.write_u32(0x01020304);
    sink.write_u32(0x05060708);
    let bytes = sink.encoded_bytes();
    // u32 units serialized LE, written backward: first written is LAST
    assert_eq!(&bytes[0..4], &[0x08, 0x07, 0x06, 0x05]);
    assert_eq!(&bytes[4..8], &[0x04, 0x03, 0x02, 0x01]);
}

#[test]
fn test_sink_reset() {
    let mut buffer = HeapResizableBuffer::new(512, 256);
    let mut sink = ResizableBufferSink::<u8>::new(&mut buffer);
    sink.write_u8(0xAB);
    assert_eq!(sink.len(), 1);
    sink.reset();
    assert_eq!(sink.len(), 0);
}

#[test]
fn test_buffer_overflow_error() {
    // max_size_step = 0 → floored to 512; capacity never overflows usize
    let mut b = HeapResizableBuffer::new(0, 0);
    assert_eq!(b.capacity(), 512);
    let _ = b.begin_to_grow().expect("growth succeeds");
    b.commit();
    assert!(b.capacity() > 512);
}
