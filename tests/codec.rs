use puyomdtool::compress::Compress;
use puyomdtool::decompress::Decompress;
use puyomdtool::PMDTError;

fn encode_bytes(data: &[u8]) -> Vec<u8> {
    let mut c = Compress::new(data.to_vec());
    c.compress();
    c.into_output()
}

fn decode_bytes(stream: &[u8], nobuf: bool) -> (Result<usize, PMDTError>, Vec<u8>) {
    let mut d = Decompress::new(stream.to_vec(), nobuf);
    let r = d.decompress();
    (r, d.into_output())
}

fn pseudo_random(len: usize, alphabet: u32, seed: u32) -> Vec<u8> {
    let mut x = seed;
    let mut out = Vec::new();
    for _ in 0..len {
        x = x.wrapping_mul(1103515245).wrapping_add(12345);
        out.push(((x >> 16) % alphabet) as u8);
    }
    out
}

#[test]
fn empty_input_encodes_to_end_byte() {
    let stream = encode_bytes(&[]);
    assert_eq!(stream, vec![0x00]);
    assert_eq!(decode_bytes(&stream, false), (Ok(0), vec![]));
    assert_eq!(decode_bytes(&stream, true), (Ok(0), vec![]));
}

#[test]
fn distinct_bytes_make_two_runs() {
    let data: Vec<u8> = (0u8..200).collect();
    let stream = encode_bytes(&data);
    let mut expected = vec![127u8];
    expected.extend(0u8..127);
    expected.push(73);
    expected.extend(127u8..200);
    expected.push(0);
    assert_eq!(stream, expected);
    assert_eq!(decode_bytes(&stream, true), (Ok(0), data.clone()));
    assert_eq!(decode_bytes(&stream, false), (Ok(0), data));
}

#[test]
fn repeated_byte_primes_then_back_references() {
    let data = vec![0xABu8; 10];
    let stream = encode_bytes(&data);
    assert_eq!(stream, vec![0x01, 0xAB, 0x86, 0x00, 0x00]);
    assert_eq!(decode_bytes(&stream, true), (Ok(0), data));
}

#[test]
fn repeated_triple_refers_to_first_occurrence() {
    let data = vec![1u8, 2, 3, 1, 2, 3];
    let stream = encode_bytes(&data);
    assert_eq!(stream, vec![3, 1, 2, 3, 0x80, 2, 0]);
    assert_eq!(decode_bytes(&stream, true), (Ok(0), data));
}

#[test]
fn buffered_decoding_drops_partial_group() {
    let mut stream = vec![10u8];
    stream.extend(1u8..=10);
    stream.push(0);
    let (r, out) = decode_bytes(&stream, false);
    assert_eq!(r, Ok(2));
    assert_eq!(out, (1u8..=8).collect::<Vec<u8>>());
    let (r, out) = decode_bytes(&stream, true);
    assert_eq!(r, Ok(0));
    assert_eq!(out, (1u8..=10).collect::<Vec<u8>>());
}

#[test]
fn buffered_drop_count_follows_length_mod_four() {
    for len in 0usize..12 {
        let data: Vec<u8> = (0..len as u8).collect();
        let stream = encode_bytes(&data);
        let (r, out) = decode_bytes(&stream, false);
        assert_eq!(r, Ok(len % 4));
        assert_eq!(out, data[..len - len % 4].to_vec());
    }
}

#[test]
fn short_inputs_of_one_to_four_bytes() {
    assert_eq!(encode_bytes(&[5]), vec![1, 5, 0]);
    assert_eq!(encode_bytes(&[5, 5]), vec![2, 5, 5, 0]);
    assert_eq!(encode_bytes(&[5, 5, 5]), vec![3, 5, 5, 5, 0]);
    assert_eq!(encode_bytes(&[5, 5, 5, 5]), vec![1, 5, 0x80, 0, 0]);
    for data in [vec![5u8], vec![5, 5], vec![5, 5, 5], vec![5, 5, 5, 5], vec![1, 2, 1, 2]] {
        assert_eq!(decode_bytes(&encode_bytes(&data), true), (Ok(0), data));
    }
}

#[test]
fn longest_back_reference_and_oldest_occurrence() {
    let data = vec![0u8; 200];
    let stream = encode_bytes(&data);
    assert_eq!(stream, vec![1, 0, 0xFF, 0x00, 0xC2, 130, 0]);
    assert_eq!(decode_bytes(&stream, true), (Ok(0), data));
}

#[test]
fn round_trip_on_small_alphabets() {
    for seed in 0u32..40 {
        for alphabet in [1u32, 2, 3, 5, 256] {
            let len = ((seed * 37) % 700) as usize;
            let data = pseudo_random(len, alphabet, seed);
            let stream = encode_bytes(&data);
            assert_eq!(*stream.last().unwrap(), 0);
            assert_eq!(decode_bytes(&stream, true), (Ok(0), data));
        }
    }
}

#[test]
fn commands_stay_in_bounds_and_refer_backwards() {
    for seed in 0u32..20 {
        let data = pseudo_random(600, 3, seed);
        let stream = encode_bytes(&data);
        let mut i = 0usize;
        let mut written = 0usize;
        loop {
            let c = stream[i];
            if c == 0 {
                assert_eq!(i, stream.len() - 1);
                break;
            } else if c < 0x80 {
                i += 1 + c as usize;
                written += c as usize;
            } else {
                let len = (c - 0x80) as usize + 3;
                assert!((3..=130).contains(&len));
                assert!(stream[i + 1] as usize + 1 <= written);
                written += len;
                i += 2;
            }
        }
        assert_eq!(written, data.len());
    }
}

#[test]
fn truncated_streams_are_rejected() {
    assert_eq!(decode_bytes(&[], false).0, Err(PMDTError::TruncatedStream));
    assert_eq!(decode_bytes(&[3, 1, 2], true).0, Err(PMDTError::TruncatedStream));
    assert_eq!(decode_bytes(&[1, 5], true).0, Err(PMDTError::TruncatedStream));
    assert_eq!(decode_bytes(&[1, 5, 0x80], true).0, Err(PMDTError::TruncatedStream));
}

#[test]
fn back_reference_to_unwritten_slots_reads_zeros() {
    assert_eq!(decode_bytes(&[0x80, 5, 0], true), (Ok(0), vec![0, 0, 0]));
}

#[test]
fn bytes_after_end_byte_are_ignored() {
    assert_eq!(decode_bytes(&[2, 7, 8, 0, 9, 9], true), (Ok(0), vec![7, 8]));
}
