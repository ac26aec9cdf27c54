use bin_read::bin_field::{read_bin_field, write_bin_field_into_pos, BinField};

fn field(data: Vec<u8>, length: usize, padding_length: usize) -> BinField {
    BinField { data, length, padding_length }
}

fn same(a: &BinField, b: &BinField) -> bool {
    a.data == b.data && a.length == b.length && a.padding_length == b.padding_length
}

#[test]
fn read_inside_one_byte() {
    let f = read_bin_field(&vec![0b1011_0011, 0b0101_1100], 2, 5);
    assert_eq!(f.data, vec![0b0001_1001]);
    assert_eq!(f.length, 5);
    assert_eq!(f.padding_length, 0);
}

#[test]
fn read_across_a_byte_boundary_towards_the_front() {
    // bits 6..10: 1, 1 from the first byte, 0, 1 from the second
    let f = read_bin_field(&vec![0b1011_0011, 0b0101_1100], 6, 4);
    assert_eq!(f.data, vec![0b0000_1101]);
    assert_eq!(f.length, 4);
}

#[test]
fn read_across_a_byte_boundary_towards_the_back() {
    // bits 3..13: 1 0011 from the first byte, 0101 1 from the second
    let f = read_bin_field(&vec![0b1011_0011, 0b0101_1100], 3, 10);
    assert_eq!(f.data, vec![0b0000_0010, 0b0110_1011]);
    assert_eq!(f.length, 10);
}

#[test]
fn read_whole_aligned_bytes() {
    let f = read_bin_field(&vec![0xab, 0xcd, 0xef], 8, 16);
    assert_eq!(f.data, vec![0xcd, 0xef]);
    assert_eq!(f.padding_length, 0);
}

#[test]
fn read_past_the_end_pads_with_zeros() {
    let f = read_bin_field(&vec![0xff], 4, 8);
    assert_eq!(f.data, vec![0xf0]);
    assert_eq!(f.length, 8);
    assert_eq!(f.padding_length, 4);
}

#[test]
fn read_wholly_past_the_end() {
    let f = read_bin_field(&vec![0xff], 16, 5);
    assert_eq!(f.data, vec![0]);
    assert_eq!(f.padding_length, 13);
}

#[test]
fn read_nothing_past_the_end() {
    let f = read_bin_field(&vec![0xff], 8, 0);
    assert_eq!(f.data, Vec::<u8>::new());
    assert_eq!(f.length, 0);
}

#[test]
fn write_inside_one_byte() {
    let mut buf = vec![0u8; 3];
    write_bin_field_into_pos(&mut buf, 3, field(vec![0b0001_1001], 5, 0));
    assert_eq!(buf, vec![0b0001_1001, 0, 0]);
}

#[test]
fn write_across_a_byte_boundary() {
    let mut buf = vec![0u8; 3];
    write_bin_field_into_pos(&mut buf, 6, field(vec![0b0001_1001], 5, 0));
    assert_eq!(buf, vec![0b0000_0011, 0b0010_0000, 0]);
}

#[test]
fn write_moving_bits_to_the_front() {
    // ten bits 10 0110 1011 written at bit 1
    let mut buf = vec![0u8; 3];
    write_bin_field_into_pos(&mut buf, 1, field(vec![0b0000_0010, 0b0110_1011], 10, 0));
    assert_eq!(buf, vec![0b0100_1101, 0b0110_0000, 0]);
}

#[test]
fn write_ors_into_what_is_there() {
    let mut buf = vec![0b1000_0001];
    write_bin_field_into_pos(&mut buf, 2, field(vec![0b0000_0111], 3, 0));
    assert_eq!(buf, vec![0b1011_1001]);
}

#[test]
fn write_drops_bits_past_the_end() {
    let mut buf = vec![0u8; 1];
    write_bin_field_into_pos(&mut buf, 6, field(vec![0b0000_0111], 3, 0));
    assert_eq!(buf, vec![0b0000_0011]);
}

#[test]
fn write_past_the_end_changes_nothing() {
    let mut buf = vec![0x5a];
    write_bin_field_into_pos(&mut buf, 9, field(vec![0xff], 8, 0));
    assert_eq!(buf, vec![0x5a]);
}

#[test]
fn write_two_whole_bytes_of_an_empty_field() {
    let mut buf = vec![0u8; 3];
    write_bin_field_into_pos(&mut buf, 4, field(vec![0x12, 0x34], 0, 0));
    assert_eq!(buf, vec![0x01, 0x23, 0x40]);
}

#[test]
fn read_after_write_gives_the_field_back() {
    for offset in 0..20usize {
        for len in 1..12usize {
            let mut buf = vec![0u8; 5];
            let original = read_bin_field(&vec![0xa7, 0x3c, 0x5e], 3, len);
            write_bin_field_into_pos(&mut buf, offset, original.clone());
            let back = read_bin_field(&buf, offset, len);
            assert_eq!(back.data, original.data);
            assert_eq!(back.length, original.length);
            assert_eq!(back.padding_length, 0);
        }
    }
}

#[test]
fn write_leaves_other_bits_alone() {
    let mut buf = vec![0xff, 0x00, 0xff];
    write_bin_field_into_pos(&mut buf, 9, field(vec![0b0000_0101], 3, 0));
    assert_eq!(buf, vec![0xff, 0b0101_0000, 0xff]);
}

#[test]
fn push_bit_puts_bits_in_front() {
    let mut f = field(Vec::new(), 0, 0);
    f.push_bit(1);
    assert!(same(&f, &field(vec![1], 1, 0)));
    f.push_bit(0);
    assert!(same(&f, &field(vec![0b01], 2, 0)));
    f.push_bit(1);
    assert!(same(&f, &field(vec![0b101], 3, 0)));
}

#[test]
fn push_bit_opens_a_new_byte_after_eight_bits() {
    let mut f = field(vec![0xff], 8, 2);
    f.push_bit(1);
    assert_eq!(f.data, vec![1, 0xff]);
    assert_eq!(f.length, 9);
    assert_eq!(f.padding_length, 2);
}

#[test]
fn fields_compare_by_length_padding_and_bytes() {
    assert!(field(vec![5], 3, 0) == field(vec![5], 3, 0));
    assert!(field(vec![5], 3, 0) != field(vec![5], 4, 0));
    assert!(field(vec![5], 3, 0) != field(vec![5], 3, 1));
    assert!(field(vec![5], 3, 0) != field(vec![4], 3, 0));
}

#[test]
fn clone_keeps_everything() {
    let f = field(vec![1, 2, 3], 20, 4);
    let g = f.clone();
    assert!(same(&f, &g));
}

#[test]
fn shown_as_zeros_and_ones() {
    assert_eq!(field(vec![0b101], 3, 0).to_string(), "101\u{1b}[37m");
}

#[test]
fn padded_bits_shown_in_red() {
    assert_eq!(
        field(vec![0b101], 3, 1).to_string(),
        "10\u{1b}[31m1\u{1b}[37m"
    );
    assert_eq!(
        field(vec![0b10, 0b1000_0000], 10, 2).to_string(),
        "10100000\u{1b}[31m0\u{1b}[31m0\u{1b}[37m"
    );
}

#[test]
fn fields_with_different_byte_counts_are_unequal_both_ways() {
    let short = field(vec![0x05], 3, 0);
    let long = field(vec![0x05, 0x07], 3, 0);
    assert!(short != long);
    assert!(long != short);
}

fn value(bytes: &[u8]) -> u64 {
    let mut v: u64 = 0;
    for b in bytes {
        v = v * 256 + *b as u64;
    }
    v
}

#[test]
fn reading_splits_into_consecutive_reads() {
    let src = vec![0b1011_0011, 0b0101_1100, 0b1110_0001];
    for (offset, a, b) in [(0usize, 3usize, 5usize), (3, 6, 7), (5, 1, 12), (6, 8, 8), (2, 11, 9)] {
        let whole = read_bin_field(&src, offset, a + b);
        let first = read_bin_field(&src, offset, a);
        let second = read_bin_field(&src, offset + a, b);
        assert_eq!(value(&whole.data), value(&first.data) * (1u64 << b) + value(&second.data));
    }
}

fn bit(bytes: &[u8], q: usize) -> u8 {
    (bytes[q / 8] >> (7 - q % 8)) & 1
}

#[test]
fn copying_a_bit_range_through_a_field() {
    let src = vec![0b1011_0011, 0b0101_1100, 0b1110_0001];
    for (offset, count) in [(0usize, 24usize), (3, 10), (6, 4), (9, 1), (1, 7), (5, 19)] {
        let f = read_bin_field(&src, offset, count);
        let mut buf = vec![0u8; src.len()];
        write_bin_field_into_pos(&mut buf, offset, f);
        for q in 0..8 * src.len() {
            let expected = if offset <= q && q < offset + count { bit(&src, q) } else { 0 };
            assert_eq!(bit(&buf, q), expected);
        }
    }
}

#[test]
fn a_write_only_sets_bits() {
    let old = vec![0b1000_0001, 0b0100_0010, 0b0010_0100];
    let f = field(vec![0b0001_0110, 0b1001_1011], 13, 0);
    let mut buf = old.clone();
    write_bin_field_into_pos(&mut buf, 5, f.clone());
    let mut alone = vec![0u8; old.len()];
    write_bin_field_into_pos(&mut alone, 5, f);
    assert_eq!(alone, vec![0b0000_0101, 0b1010_0110, 0b1100_0000]);
    for k in 0..old.len() {
        assert_eq!(buf[k], old[k] | alone[k]);
    }
}

#[test]
fn writes_commute() {
    let start = vec![0b0001_0000, 0, 0b1000_0000];
    let f = field(vec![0b101], 3, 0);
    let g = field(vec![0b0010_1101], 6, 0);
    let mut one = start.clone();
    write_bin_field_into_pos(&mut one, 2, f.clone());
    write_bin_field_into_pos(&mut one, 9, g.clone());
    let mut two = start.clone();
    write_bin_field_into_pos(&mut two, 9, g);
    write_bin_field_into_pos(&mut two, 2, f);
    assert_eq!(one, two);
    assert_eq!(one, vec![0b0011_1000, 0b0101_1010, 0b1000_0000]);
}
