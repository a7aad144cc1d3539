use useless_codec::bits::{bits_to_byte, encode_buffer_to_bits, pack_bits};
use useless_codec::codec::{
    append_trailer, assemble_decoded, decode, decode_chunk, encode, encode_chunk, encode_trailer,
    parallelism, workers_for, EncodeError,
};
use useless_codec::merge::Merger;
use useless_codec::naming::{get_decoded_output_name, get_useless_output_name};
use useless_codec::partition::{find_next_space, split_byte_chunks, split_token_chunks};
use useless_codec::tokens::{
    bit_to_token, decode_tokens, encode_to_useless, push_decimal, token_to_bit, tokens_text,
};
use useless_codec::trailer::{
    extension_text, extract_extension, read_last_tokens, read_trailer, DecodeError,
};

fn tokens_of_text(text: &[u8]) -> Vec<u64> {
    std::str::from_utf8(text)
        .unwrap()
        .split_whitespace()
        .map(|t| t.parse::<u64>().unwrap())
        .collect()
}

#[test]
fn three_bytes_txt_two_chunks() {
    let content = [0x41u8, 0x42, 0x43];
    let text = encode(&content, "txt", 2).unwrap();
    assert_eq!(tokens_of_text(&text).len(), 24 + 24 + 8);
    let (back, ext) = decode(&text, 2).unwrap();
    assert_eq!(back, vec![0x41u8, 0x42, 0x43]);
    assert_eq!(ext, "txt");
}

#[test]
fn empty_file_empty_extension() {
    let text = encode(&[], "", 3).unwrap();
    let tokens = tokens_of_text(&text);
    assert_eq!(tokens.len(), 8);
    assert!(tokens.iter().all(|t| t % 2 == 0));
    let (back, ext) = decode(&text, 3).unwrap();
    assert!(back.is_empty());
    assert_eq!(ext, "");
    assert_eq!(get_decoded_output_name("photo", &ext), "photo_decoded");
}

#[test]
fn corrupt_content_token_fails() {
    let content = b"hello world".to_vec();
    let text = encode(&content, "bin", 2).unwrap();
    let s = String::from_utf8(text).unwrap();
    let mut parts: Vec<&str> = s.split(' ').collect();
    parts[5] = "abc";
    let corrupted = parts.join(" ");
    for p in 1..5 {
        assert_eq!(decode(corrupted.as_bytes(), p), Err(DecodeError::MalformedToken));
    }
}

#[test]
fn round_trip_many_sizes_and_degrees() {
    for len in [0usize, 1, 2, 3, 7, 8, 13, 100, 257] {
        let content: Vec<u8> = (0..len).map(|i| (i * 37 + 11) as u8).collect();
        for p in 1..=6 {
            let text = encode(&content, "dat", p).unwrap();
            for q in 1..=6 {
                let (back, ext) = decode(&text, q).unwrap();
                assert_eq!(back, content);
                assert_eq!(ext, "dat");
            }
        }
    }
}

#[test]
fn extension_kept() {
    for e in ["", "a", "jpg", "tar.gz", "données"] {
        let text = encode(b"xyz", e, 2).unwrap();
        let (back, ext) = decode(&text, 4).unwrap();
        assert_eq!(back, b"xyz".to_vec());
        assert_eq!(ext, e);
    }
}

#[test]
fn extension_too_long() {
    let long = "x".repeat(256);
    assert_eq!(encode(b"a", &long, 1), Err(EncodeError::ExtensionTooLong));
    let max = "y".repeat(255);
    let text = encode(b"a", &max, 1).unwrap();
    assert_eq!(decode(&text, 1).unwrap().1, max);
}

#[test]
fn token_parity_and_range() {
    assert_eq!(bit_to_token(0, 1), 2);
    assert_eq!(bit_to_token(1, 1), 3);
    assert_eq!(bit_to_token(1, 0x1FFF_FFFF), 0x3FFF_FFFF);
    assert_eq!(bit_to_token(0, 0x1FFF_FFFF), 0x3FFF_FFFE);
    assert_eq!(token_to_bit(2), 0);
    assert_eq!(token_to_bit(1_000_001), 1);
    let text = encode_to_useless(&[0, 1, 1, 0, 1]);
    let tokens = tokens_of_text(&text);
    let parities: Vec<u64> = tokens.iter().map(|t| t % 2).collect();
    assert_eq!(parities, vec![0, 1, 1, 0, 1]);
    assert!(tokens.iter().all(|&t| t >= 2 && t < (1u64 << 30)));
}

#[test]
fn random_magnitudes_vary() {
    let bits = vec![0u8; 64];
    let a = encode_to_useless(&bits);
    let b = encode_to_useless(&bits);
    assert_ne!(a, b);
}

#[test]
fn tokens_text_exact() {
    assert_eq!(tokens_text(&[0, 1, 1], &[5, 1, 10]), b"10 3 21 ".to_vec());
    assert_eq!(tokens_text(&[], &[]), Vec::<u8>::new());
}

#[test]
fn decimal_digits() {
    let mut out = b"x".to_vec();
    push_decimal(&mut out, 0);
    push_decimal(&mut out, 1234567890);
    assert_eq!(out, b"x01234567890".to_vec());
}

#[test]
fn read_tokens() {
    assert_eq!(decode_tokens(b"12 7 \n 8\t33"), Some(vec![0, 1, 0, 1]));
    assert_eq!(decode_tokens(b""), Some(vec![]));
    assert_eq!(decode_tokens(b"   "), Some(vec![]));
    assert_eq!(decode_tokens(b"12 1x 4"), None);
    assert_eq!(decode_tokens(b"-3"), None);
}

#[test]
fn bits_of_bytes_and_back() {
    assert_eq!(encode_buffer_to_bits(&[0xA5]), vec![1, 0, 1, 0, 0, 1, 0, 1]);
    assert_eq!(encode_buffer_to_bits(&[0x01, 0x80]).len(), 16);
    assert_eq!(bits_to_byte(&[1, 0, 1, 0, 0, 1, 0, 1]), Some(0xA5));
    assert_eq!(bits_to_byte(&[0, 0, 0, 0, 0, 0, 0, 3]), Some(1));
    assert_eq!(bits_to_byte(&[1, 0, 1]), None);
    assert_eq!(bits_to_byte(&[0; 9]), None);
    assert_eq!(pack_bits(&[0, 1, 0, 0, 0, 0, 0, 1, 1, 1, 1, 1, 1, 1, 1, 1]), Some(vec![0x41, 0xFF]));
    assert_eq!(pack_bits(&[1, 0, 1]), None);
}

#[test]
fn byte_chunks_even_split() {
    assert_eq!(split_byte_chunks(10, 3), vec![(0, 4), (4, 7), (7, 10)]);
    assert_eq!(split_byte_chunks(2, 4), vec![(0, 1), (1, 2), (2, 2), (2, 2)]);
    assert_eq!(split_byte_chunks(0, 1), vec![(0, 0)]);
    for len in 0..40usize {
        for p in 1..9usize {
            let r = split_byte_chunks(len, p);
            assert_eq!(r.len(), p);
            assert_eq!(r[0].0, 0);
            assert_eq!(r[p - 1].1, len);
            for i in 1..p {
                assert_eq!(r[i - 1].1, r[i].0);
            }
        }
    }
}

#[test]
fn token_chunks_snap_to_separators() {
    let text = b"123 45 6 7890 11 ";
    assert_eq!(find_next_space(text, 0, text.len()), 4);
    assert_eq!(find_next_space(text, 4, text.len()), 7);
    assert_eq!(find_next_space(text, 10, 12), 12);
    let r = split_token_chunks(text, text.len(), 3);
    assert_eq!(r, vec![(0, 7), (7, 14), (14, 17)]);
    for &(a, b) in &r {
        assert!(a == 0 || text[a - 1] == b' ');
        assert!(b == text.len() || text[b - 1] == b' ');
    }
}

#[test]
fn token_chunks_decode_like_whole() {
    let content: Vec<u8> = (0..50u8).collect();
    let text = encode(&content, "", 1).unwrap();
    let (_, end) = extract_extension(&text).unwrap();
    let whole = decode_chunk(&text, 0, end).unwrap();
    for p in 1..8 {
        let mut bits = Vec::new();
        for (a, b) in split_token_chunks(&text, end, p) {
            bits.extend(decode_chunk(&text, a, b).unwrap());
        }
        assert_eq!(bits, whole);
    }
}

#[test]
fn merge_ignores_completion_order() {
    let outputs = vec![b"ab".to_vec(), b"c".to_vec(), Vec::new(), b"def".to_vec()];
    let mut forward = Merger::new(4);
    for (i, o) in outputs.iter().enumerate() {
        forward.complete(i, o.clone());
    }
    let mut backward = Merger::new(4);
    for (i, o) in outputs.iter().enumerate().rev() {
        backward.complete(i, o.clone());
    }
    let a = forward.finish().unwrap();
    assert_eq!(a, b"abcdef".to_vec());
    assert_eq!(backward.finish().unwrap(), a);
}

#[test]
fn merge_waits_for_every_chunk() {
    let mut m = Merger::new(3);
    assert_eq!(m.len(), 3);
    m.complete(0, b"x".to_vec());
    m.complete(2, b"z".to_vec());
    assert_eq!(m.finish(), None);
}

#[test]
fn trailer_reading() {
    let t = tokens_text(&[0, 1, 0, 0, 0, 0, 1, 0], &[1, 1, 1, 1, 1, 1, 1, 1]);
    assert_eq!(read_last_tokens(&t, t.len(), 8), Some((vec![0, 1, 0, 0, 0, 0, 1, 0], 0)));
    assert_eq!(read_last_tokens(&t, t.len(), 9), None);
    assert_eq!(read_last_tokens(b"5 6 7 ", 6, 2), Some((vec![0, 1], 2)));
    assert_eq!(read_last_tokens(b"5 6x7 ", 6, 2), None);
    let trailer = encode_trailer(b"go");
    let mut text = tokens_text(&[1, 0, 1, 0, 1, 0, 1, 0], &[3; 8]);
    let content_end = text.len();
    text.extend(trailer);
    assert_eq!(read_trailer(&text), Ok((b"go".to_vec(), content_end)));
    assert_eq!(extract_extension(&text), Ok(("go".to_string(), content_end)));
}

#[test]
fn malformed_trailer() {
    assert_eq!(decode(b"1 2 3 ", 1), Err(DecodeError::MalformedTrailer));
    assert_eq!(decode(b"", 1), Err(DecodeError::MalformedTrailer));
    assert_eq!(extract_extension(b"2 2 2 2 2 2 2 q "), Err(DecodeError::MalformedTrailer));
    // length 1 but no extension tokens before it
    assert_eq!(decode(b"2 2 2 2 2 2 2 3 ", 1), Err(DecodeError::MalformedTrailer));
}

#[test]
fn misaligned_content() {
    let mut text = b"2 3 4 ".to_vec();
    text.extend(encode_trailer(b""));
    assert_eq!(decode(&text, 2), Err(DecodeError::Misaligned));
}

#[test]
fn extension_not_text() {
    let mut text = encode_chunk(b"A", 0, 1, 1);
    text.extend(encode_trailer(&[0xFF]));
    assert_eq!(decode(&text, 1), Err(DecodeError::ExtensionNotText));
    assert_eq!(extract_extension(&text), Err(DecodeError::ExtensionNotText));
    assert_eq!(read_trailer(&text).map(|(b, _)| b), Ok(vec![0xFF]));
    assert_eq!(extension_text(vec![0xC3, 0x28]), Err(DecodeError::ExtensionNotText));
    assert_eq!(extension_text("é".as_bytes().to_vec()), Ok("é".to_string()));
}

#[test]
fn buffer_size_changes_nothing_but_granularity() {
    let content: Vec<u8> = (0..40u8).collect();
    for buffer_size in [1usize, 3, 8, 40, 1000] {
        let text = encode_chunk(&content, 5, 33, buffer_size);
        let bits = decode_tokens(&text).unwrap();
        assert_eq!(pack_bits(&bits), Some(content[5..33].to_vec()));
    }
}

#[test]
fn output_names() {
    assert_eq!(get_useless_output_name("20250409_141145"), "20250409_141145.useless");
    assert_eq!(get_decoded_output_name("photo", "jpg"), "photo_decoded.jpg");
    assert_eq!(get_decoded_output_name("photo", ""), "photo_decoded");
}

#[test]
fn at_least_one_worker() {
    assert!(parallelism() >= 1);
    assert_eq!(workers_for(0), 1);
    assert_eq!(workers_for(1), 1);
    assert_eq!(workers_for(12), 12);
}

#[test]
fn corrupt_token_with_digits_fails() {
    let text = encode(&[0x10, 0x20, 0x30], "txt", 2).unwrap();
    let s = String::from_utf8(text).unwrap();
    let mut parts: Vec<String> = s.split(' ').map(|t| t.to_string()).collect();
    parts[20] = "x7".to_string();
    let corrupted = parts.join(" ");
    assert_eq!(decode(corrupted.as_bytes(), 3), Err(DecodeError::MalformedToken));
}

#[test]
fn assemble_decoded_joins_in_order() {
    let parts = vec![Some(vec![0, 1, 0, 0]), Some(vec![0, 0, 0, 1]), Some(vec![]), Some(vec![1, 1, 1, 1, 1, 1, 1, 1])];
    assert_eq!(assemble_decoded(parts), Ok(vec![0x41, 0xFF]));
    assert_eq!(assemble_decoded(vec![Some(vec![0; 8]), None]), Err(DecodeError::MalformedToken));
    assert_eq!(assemble_decoded(vec![Some(vec![0; 7])]), Err(DecodeError::Misaligned));
    assert_eq!(assemble_decoded(vec![]), Ok(vec![]));
}

#[test]
fn append_trailer_keeps_text() {
    let head = encode_chunk(b"AB", 0, 2, 1);
    let whole = append_trailer(head.clone(), "md").unwrap();
    assert_eq!(&whole[..head.len()], &head[..]);
    assert_eq!(decode(&whole, 2), Ok((b"AB".to_vec(), "md".to_string())));
    assert_eq!(append_trailer(head, &"z".repeat(256)), Err(EncodeError::ExtensionTooLong));
}
