use defmt_userbuff::Buffer;
use defmt_userbuff::Reader;

const SIZE: usize = 1024;

#[test]
fn test_writes() {
    let mut buffer = Buffer::new(SIZE);

    assert_eq!(buffer.write(&[0u8, 1u8, 2u8, 3u8]), 4);
    assert_eq!(buffer.write(&['x' as u8; SIZE - 4]), SIZE - 5);
    assert_eq!(buffer.write(&[0u8, 1u8, 2u8, 3u8]), 0);
}

#[test]
fn test_no_wrap() {
    let mut buffer = Buffer::new(SIZE);

    let mut data = [0; SIZE - 4];
    for (i, b) in data.iter_mut().enumerate() {
        *b = i as u8
    }
    assert_eq!(buffer.write(&data), SIZE - 4);

    let mut read: Vec<u8> = vec![0; SIZE];
    assert_eq!(buffer.read(&mut read), SIZE - 4);
    assert_eq!(buffer.read(&mut read), 0);

    assert_eq!(read[..SIZE - 4], data);
    assert_eq!(buffer.read_cursor(), buffer.write_cursor());
}

#[test]
fn test_wrapping() {
    let mut buffer = Buffer::new(SIZE);

    // Write SIZE/2 and read it back.
    let mut data1 = [0; SIZE / 2];
    for (i, b) in data1.iter_mut().enumerate() {
        *b = i as u8
    }
    assert_eq!(buffer.write(&data1), SIZE / 2);
    let mut read1: Vec<u8> = vec![0; SIZE / 2];
    assert_eq!(buffer.read(&mut read1), SIZE / 2);
    assert_eq!(buffer.read(&mut read1), 0);
    assert_eq!(read1[..SIZE / 2], data1);
    assert_eq!(buffer.read_cursor(), buffer.write_cursor());

    // Write SIZE-4 and read it back.
    let mut data = [0; SIZE];
    for (i, b) in data.iter_mut().enumerate() {
        *b = i as u8
    }
    assert_eq!(buffer.write(&data), SIZE - 1);
    let mut read: Vec<u8> = vec![0; SIZE];
    assert_eq!(buffer.read(&mut read), SIZE - 1);
    assert_eq!(buffer.read(&mut read), 0);
    assert_eq!(read[..SIZE - 1], data[..SIZE - 1]);
    assert_eq!(buffer.read_cursor(), buffer.write_cursor());
}

#[test]
fn scenario_short_counts() {
    // Capacity 8: a 4-byte write is taken whole, the next 4 bytes only
    // partly (one slot stays reserved), and a big read hands back all 7
    // live bytes in order.
    let mut b = Buffer::new(8);
    assert_eq!(b.write(&[0u8, 1, 2, 3]), 4);
    assert_eq!(b.write(&[4u8, 4, 4, 4]), 3);
    let mut dest: Vec<u8> = vec![0; 8];
    assert_eq!(b.read(&mut dest), 7);
    assert_eq!(&dest[..7], &[0u8, 1, 2, 3, 4, 4, 4]);
}

#[test]
fn scenario_fill_empty_buffer() {
    // A write of exactly the capacity consumes capacity - 1 bytes, and
    // every further write consumes nothing until a read frees space.
    let mut b = Buffer::new(16);
    let data = [7u8; 16];
    assert_eq!(b.write(&data), 15);
    assert_eq!(b.write(&[1u8]), 0);
    assert_eq!(b.write(&data), 0);
    let mut dest: Vec<u8> = vec![0; 4];
    assert_eq!(b.read(&mut dest), 4);
    assert_eq!(dest, vec![7u8; 4]);
    assert_eq!(b.write(&[1u8, 2, 3, 4, 5]), 4);
}

#[test]
fn read_on_empty_buffer_mutates_nothing() {
    let mut b = Buffer::new(8);
    let mut dest: Vec<u8> = vec![5u8; 4];
    assert_eq!(b.read(&mut dest), 0);
    assert_eq!(dest, vec![5u8; 4]);
    assert_eq!(b.read_cursor(), 0);
    assert_eq!(b.write_cursor(), 0);
}

#[test]
fn reserved_slot_never_holds_data() {
    // Exactly capacity - 1 bytes fit into an empty ring; the next byte
    // before any read is not consumed.
    let mut b = Buffer::new(8);
    assert_eq!(b.write(&[3u8; 7]), 7);
    assert_eq!(b.write(&[3u8]), 0);
}

#[test]
fn zero_length_is_a_no_op() {
    let mut b = Buffer::new(8);
    assert_eq!(b.write(&[]), 0);
    assert_eq!(b.write(&[9u8, 9]), 2);
    assert_eq!(b.write(&[]), 0);
    let mut empty: Vec<u8> = Vec::new();
    assert_eq!(b.read(&mut empty), 0);
    let w = b.write_cursor();
    let r = b.read_cursor();
    assert_eq!(b.write(&[]), 0);
    assert_eq!(b.read(&mut empty), 0);
    assert_eq!(b.write_cursor(), w);
    assert_eq!(b.read_cursor(), r);
}

#[test]
fn smallest_capacity() {
    // Capacity 2 leaves exactly one usable slot.
    let mut b = Buffer::new(2);
    assert_eq!(b.capacity(), 2);
    assert_eq!(b.write(&[10u8, 11]), 1);
    assert_eq!(b.write(&[12u8]), 0);
    let mut dest: Vec<u8> = vec![0; 2];
    assert_eq!(b.read(&mut dest), 1);
    assert_eq!(dest[0], 10);
    assert_eq!(b.write(&[12u8]), 1);
    let mut one: Vec<u8> = vec![0; 1];
    assert_eq!(b.read(&mut one), 1);
    assert_eq!(one[0], 12);
}

#[test]
fn wraparound_reconstructs_across_seam() {
    // Push the cursors near the physical end, then write a run that spans
    // the seam and read it back whole.
    let mut b = Buffer::new(8);
    let mut sink: Vec<u8> = vec![0; 8];
    assert_eq!(b.write(&[0u8; 6]), 6);
    assert_eq!(b.read(&mut sink), 6);
    // Cursors now stand at 6; five bytes wrap past the end.
    let data = [21u8, 22, 23, 24, 25];
    assert_eq!(b.write(&data), 5);
    let mut dest: Vec<u8> = vec![0; 5];
    assert_eq!(b.read(&mut dest), 5);
    assert_eq!(&dest[..], &data);
    assert_eq!(b.read_cursor(), b.write_cursor());
}

#[test]
fn fifo_over_interleaved_calls() {
    // Interleaved writes and reads come back concatenated, in order.
    let mut b = Buffer::new(8);
    let mut out: Vec<u8> = Vec::new();
    let mut dest: Vec<u8> = vec![0; 3];
    assert_eq!(b.write(&[1u8, 2, 3]), 3);
    let n = b.read(&mut dest);
    assert_eq!(n, 3);
    out.extend_from_slice(&dest[..n]);
    assert_eq!(b.write(&[4u8, 5, 6, 7]), 4);
    assert_eq!(b.write(&[8u8, 9]), 2);
    let n = b.read(&mut dest);
    assert_eq!(n, 3);
    out.extend_from_slice(&dest[..n]);
    let n = b.read(&mut dest);
    assert_eq!(n, 3);
    out.extend_from_slice(&dest[..n]);
    assert_eq!(out, vec![1u8, 2, 3, 4, 5, 6, 7, 8, 9]);
}

#[test]
fn write_all_consumes_what_fits() {
    let mut b = Buffer::new(8);
    assert_eq!(b.write_all(&[1u8, 2, 3]), 3);
    // Ten bytes offered, four slots free: the rest is dropped, not queued.
    assert_eq!(b.write_all(&[4u8, 5, 6, 7, 8, 9, 10, 11, 12, 13]), 4);
    let mut dest: Vec<u8> = vec![0; 8];
    assert_eq!(b.read(&mut dest), 7);
    assert_eq!(&dest[..7], &[1u8, 2, 3, 4, 5, 6, 7]);
}

#[test]
fn read_through_reader_trait() {
    let mut b = Buffer::new(8);
    assert_eq!(b.write(&[40u8, 41, 42]), 3);
    let mut dest: Vec<u8> = vec![0; 2];
    let n = <Buffer as Reader>::read(&mut b, &mut dest);
    assert_eq!(n, 2);
    assert_eq!(dest, vec![40u8, 41]);
    let n = <Buffer as Reader>::read(&mut b, &mut dest);
    assert_eq!(n, 1);
    assert_eq!(dest, vec![42u8, 41]);
}
