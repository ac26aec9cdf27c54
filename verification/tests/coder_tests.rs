use bin_read::bin_field::BinField;
use bin_read::encode::{
    _get_max_size_of_bin_field, encode_file_with_given_length, get_output_size,
    pure_compressed_size, u16_into_bin_field,
};
use bin_read::frequency::{
    create_frequency_table, file_vec_into_bin_vec, get_index_of_bin_field_in_frequency_table,
    FrequencyOfField,
};
use bin_read::huffman::{create_huffman_code, merge_indexes_between_vec};

fn field(data: Vec<u8>, length: usize) -> BinField {
    BinField { data, length, padding_length: 0 }
}

fn table_of(freqs: &[usize]) -> Vec<FrequencyOfField> {
    let mut table = Vec::new();
    for (i, f) in freqs.iter().enumerate() {
        let mut entry = FrequencyOfField::new(field(vec![i as u8], 8));
        entry.frequency = *f;
        table.push(entry);
    }
    table
}

#[test]
fn new_entry_counts_one() {
    let entry = FrequencyOfField::new(field(vec![7], 3));
    assert_eq!(entry.frequency, 1);
    assert_eq!(entry.field.data, vec![7]);
}

#[test]
fn file_cut_into_fields() {
    let fields = file_vec_into_bin_vec(&vec![0b1011_0011, 0b0101_1100], 3);
    assert_eq!(fields.len(), 6);
    let values: Vec<u8> = fields.iter().map(|f| f.data[0]).collect();
    assert_eq!(values, vec![0b101, 0b100, 0b110, 0b101, 0b110, 0b000]);
    assert!(fields.iter().all(|f| f.length == 3));
    assert_eq!(fields[5].padding_length, 2);
    assert_eq!(fields[4].padding_length, 0);
}

#[test]
fn frequency_table_in_order_of_first_occurrence() {
    let fields = file_vec_into_bin_vec(&vec![0xaa, 0x5a], 4);
    let table = create_frequency_table(&fields);
    assert_eq!(table.len(), 2);
    assert_eq!(table[0].field.data, vec![0x0a]);
    assert_eq!(table[0].frequency, 3);
    assert_eq!(table[1].field.data, vec![0x05]);
    assert_eq!(table[1].frequency, 1);
}

#[test]
fn frequency_counts_add_up_to_the_number_of_fields() {
    let fields = file_vec_into_bin_vec(&vec![0x12, 0x34, 0x12, 0xff, 0x00], 5);
    let table = create_frequency_table(&fields);
    let total: usize = table.iter().map(|e| e.frequency).sum();
    assert_eq!(total, fields.len());
    assert!(table.iter().all(|e| e.frequency >= 1));
}

#[test]
fn index_of_a_field_in_its_table() {
    let fields = file_vec_into_bin_vec(&vec![0xaa, 0x5a], 4);
    let table = create_frequency_table(&fields);
    assert_eq!(get_index_of_bin_field_in_frequency_table(&table, &fields[0]), 0);
    assert_eq!(get_index_of_bin_field_in_frequency_table(&table, &fields[2]), 1);
}

#[test]
fn merge_appends_the_second_group() {
    let mut v = vec![
        (1usize, vec![0usize], field(vec![], 0)),
        (2usize, vec![1usize, 2], field(vec![], 0)),
    ];
    merge_indexes_between_vec(&mut v, 0, 1);
    assert_eq!(v[0].1, vec![0, 1, 2]);
    assert_eq!(v[1].1, vec![1, 2]);
    assert_eq!(v[0].0, 1);
}

#[test]
fn huffman_codes_of_three_entries() {
    let table = table_of(&[5, 2, 1]);
    let codes = create_huffman_code(&table);
    assert_eq!(codes.len(), 3);
    assert_eq!((codes[0].2.data.clone(), codes[0].2.length), (vec![1], 1));
    assert_eq!((codes[1].2.data.clone(), codes[1].2.length), (vec![1], 2));
    assert_eq!((codes[2].2.data.clone(), codes[2].2.length), (vec![0], 2));
    assert_eq!(codes.iter().map(|c| c.0).collect::<Vec<_>>(), vec![8, 8, 8]);
    assert_eq!(codes[0].1, vec![0, 1, 2]);
    assert_eq!(codes[1].1, vec![1, 2]);
    assert_eq!(codes[2].1, vec![2]);
}

#[test]
fn huffman_code_of_a_single_entry() {
    let table = table_of(&[4]);
    let codes = create_huffman_code(&table);
    assert_eq!(codes.len(), 1);
    assert_eq!((codes[0].2.data.clone(), codes[0].2.length), (vec![1], 1));
}

fn code_bits(f: &BinField) -> Vec<bool> {
    let total = f.data.len() * 8;
    (total - f.length..total)
        .map(|b| (f.data[b / 8] >> (7 - b % 8)) & 1 == 1)
        .collect()
}

#[test]
fn huffman_codes_are_prefix_free() {
    let table = table_of(&[7, 1, 3, 3, 9, 2, 2, 5, 1, 1]);
    let codes = create_huffman_code(&table);
    let bits: Vec<Vec<bool>> = codes.iter().map(|c| code_bits(&c.2)).collect();
    for i in 0..bits.len() {
        assert!(!bits[i].is_empty());
        for j in 0..bits.len() {
            if i != j {
                assert!(!bits[j].starts_with(&bits[i]));
            }
        }
    }
}

#[test]
fn two_bytes_of_a_u16() {
    let f = u16_into_bin_field(0x1234);
    assert_eq!(f.data, vec![0x12, 0x34]);
    assert_eq!(f.length, 0);
    assert_eq!(f.padding_length, 0);
}

#[test]
fn longest_code() {
    let codes = create_huffman_code(&table_of(&[5, 2, 1]));
    assert_eq!(_get_max_size_of_bin_field(&codes), 2);
    assert_eq!(_get_max_size_of_bin_field(&Vec::new()), 0);
}

#[test]
fn output_size_of_three_entries() {
    let table = table_of(&[5, 2, 1]);
    let codes = create_huffman_code(&table);
    // 1 * 6 + 2 * 3 + 2 * 2 + 16 + 3 * (8 + 16)
    assert_eq!(get_output_size(&codes, &table), 104);
    // 1 * 5 + 2 * 2 + 2 * 1
    assert_eq!(pure_compressed_size(&codes, &table), 11);
}

#[test]
fn encoded_file_of_three_bytes() {
    let out = encode_file_with_given_length(&vec![0x00, 0x00, 0xff], 8);
    assert_eq!(out, vec![0x00, 0x08, 0x00, 0x00, 0x01, 0xff, 0x80, 0x00, 0xb0]);
}

#[test]
fn encoded_length_matches_output_size() {
    let file = vec![0x12, 0x34, 0x12, 0xff, 0x00, 0x7e];
    for length in 1..20usize {
        let fields = file_vec_into_bin_vec(&file, length);
        let table = create_frequency_table(&fields);
        let codes = create_huffman_code(&table);
        let size = get_output_size(&codes, &table);
        let out = encode_file_with_given_length(&file, length);
        assert_eq!(out.len(), (size + 7) / 8);
    }
}

fn bits_of(f: &BinField) -> Vec<bool> {
    code_bits(f)
}

#[test]
fn encoded_body_reads_back_as_the_fields() {
    let file = vec![0x12, 0x34, 0x12, 0xff, 0x00, 0x7e];
    let length = 4;
    let fields = file_vec_into_bin_vec(&file, length);
    let table = create_frequency_table(&fields);
    let codes = create_huffman_code(&table);
    let out = encode_file_with_given_length(&file, length);
    let total = out.len() * 8;
    let bit = |p: usize| p < total && (out[p / 8] >> (7 - p % 8)) & 1 == 1;
    let code_bits: Vec<Vec<bool>> = codes.iter().map(|c| bits_of(&c.2)).collect();
    let mut p = 16 + table.len() * (length + 16) + code_bits.iter().map(|c| c.len()).sum::<usize>();
    for f in &fields {
        let expected = get_index_of_bin_field_in_frequency_table(&table, f);
        let matches: Vec<usize> = (0..code_bits.len())
            .filter(|&k| code_bits[k].iter().enumerate().all(|(q, b)| bit(p + q) == *b))
            .collect();
        assert_eq!(matches, vec![expected]);
        p += code_bits[expected].len();
    }
    assert_eq!((p + 7) / 8, out.len());
}

#[test]
fn table_entries_are_distinct() {
    let fields = file_vec_into_bin_vec(&vec![0x12, 0x34, 0x12, 0xff, 0x00, 0x7e, 0x12], 6);
    let table = create_frequency_table(&fields);
    for a in 0..table.len() {
        for b in 0..table.len() {
            if a != b {
                assert!(table[a].field != table[b].field);
            }
        }
    }
}

#[test]
fn fields_with_the_same_bits_are_equal() {
    let a = bin_read::read_bin_field(&vec![0b1011_0011], 1, 3);
    let b = bin_read::read_bin_field(&vec![0b0110_0000], 0, 3);
    assert!(a == b);
    let c = bin_read::read_bin_field(&vec![0b0101_0000], 0, 3);
    assert!(a != c);
}

#[test]
fn root_group_lists_every_entry_once() {
    let freqs = [7, 1, 3, 3, 9, 2, 2, 5, 1, 1];
    let codes = create_huffman_code(&table_of(&freqs));
    let all: Vec<usize> = (0..freqs.len()).collect();
    let roots: Vec<usize> = (0..codes.len())
        .filter(|&r| {
            let mut g = codes[r].1.clone();
            g.sort();
            g == all
        })
        .collect();
    assert_eq!(roots.len(), 1);
}

#[test]
fn more_frequent_entries_get_codes_no_longer() {
    let freqs = [7, 1, 3, 3, 9, 2, 2, 5, 1, 1];
    let codes = create_huffman_code(&table_of(&freqs));
    for i in 0..freqs.len() {
        for j in 0..freqs.len() {
            if freqs[i] > freqs[j] {
                assert!(codes[i].2.length <= codes[j].2.length);
            }
        }
    }
}

#[test]
fn huffman_codes_cost_no_more_than_any_prefix_code() {
    let freqs = [7usize, 1, 3, 3, 9, 2];
    let codes = create_huffman_code(&table_of(&freqs));
    let huffman: usize = (0..freqs.len()).map(|i| freqs[i] * codes[i].2.length).sum();
    // every choice of lengths from 1 to 5 that a prefix code can have
    let mut best = usize::MAX;
    let mut lens = [1usize; 6];
    loop {
        let kraft: usize = lens.iter().map(|l| 1usize << (5 - l)).sum();
        if kraft <= 32 {
            let c: usize = (0..freqs.len()).map(|i| freqs[i] * lens[i]).sum();
            assert!(huffman <= c);
            best = best.min(c);
        }
        let mut k = 0;
        while k < lens.len() && lens[k] == 5 {
            lens[k] = 1;
            k += 1;
        }
        if k == lens.len() {
            break;
        }
        lens[k] += 1;
    }
    assert_eq!(huffman, best);
}
