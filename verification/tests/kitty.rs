use base64::engine::general_purpose::STANDARD;
use base64::Engine as _;
use dre::canvas::Canvas;
use dre::kitty::{chunks, clear, encode, escape, is_supported, more, show, transmission, CHUNK_SIZE};
use flate2::read::ZlibDecoder;
use std::io::Read as _;

#[test]
fn kitty_chunks_splits_at_boundaries() {
    let payload = "a".repeat(10);
    let result = chunks(&payload, 3);
    assert_eq!(result, vec!["aaa", "aaa", "aaa", "a"]);
}

#[test]
fn kitty_chunks_exact_multiple_of_chunk_size() {
    let payload = "a".repeat(6);
    let result = chunks(&payload, 3);
    assert_eq!(result, vec!["aaa", "aaa"]);
}

#[test]
fn kitty_chunks_single_chunk_when_smaller_than_size() {
    let payload = "abc";
    let result = chunks(payload, 100);
    assert_eq!(result, vec!["abc"]);
}

#[test]
fn kitty_more_returns_zero_for_last_index() {
    let list = vec!["a".to_string(), "b".to_string(), "c".to_string()];
    assert_eq!(more(&list, 2), 0);
}

#[test]
fn kitty_more_returns_one_for_non_last_index() {
    let list = vec!["a".to_string(), "b".to_string(), "c".to_string()];
    assert_eq!(more(&list, 0), 1);
    assert_eq!(more(&list, 1), 1);
}

#[test]
fn kitty_more_single_element_list_is_last() {
    let list = vec!["a".to_string()];
    assert_eq!(more(&list, 0), 0);
}

#[test]
fn kitty_escape_wraps_keys_and_payload() {
    let result = escape("a=T,f=32", "PAYLOAD");
    assert_eq!(result, "\x1b_Ga=T,f=32;PAYLOAD\x1b\\");
}

#[test]
fn kitty_encode_round_trips_through_zlib_and_base64() {
    let pixels: Vec<u8> = (0..=255).collect();
    let encoded = encode(&pixels);
    let compressed = STANDARD.decode(&encoded).unwrap();
    let mut decoder = ZlibDecoder::new(&compressed[..]);
    let mut decompressed = Vec::new();
    decoder.read_to_end(&mut decompressed).unwrap();
    assert_eq!(decompressed, pixels);
}

#[test]
fn kitty_transmission_single_chunk_has_expected_header_and_m0() {
    let pixels = vec![1u8, 2, 3, 4];
    let result = transmission(&pixels, 2, 1);

    let expected_payload = encode(&pixels);
    let expected_header = "a=T,f=32,s=2,v=1,o=z,q=2,z=-1,m=0".to_string();
    let expected = escape(&expected_header, &expected_payload);
    assert_eq!(result, expected);
    assert!(result.starts_with("\x1b_Ga=T,f=32,s=2,v=1,o=z,q=2,z=-1,m=0;"));
    assert!(result.ends_with("\x1b\\"));
}

#[test]
fn kitty_transmission_multi_chunk_splits_and_sets_more_flag() {
    let mut state: u32 = 0x9E3779B9;
    let pixels: Vec<u8> = (0..8_000u32)
        .map(|_| {
            state = state.wrapping_mul(1664525).wrapping_add(1013904223);
            (state >> 16) as u8
        })
        .collect();
    let result = transmission(&pixels, 100, 100);

    let payload = encode(&pixels);
    let chunk_list = chunks(&payload, CHUNK_SIZE);
    assert!(chunk_list.len() > 1, "expected payload to span multiple chunks");

    let header = format!("a=T,f=32,s=100,v=100,o=z,q=2,z=-1,m={}", more(&chunk_list, 0));
    let mut expected = escape(&header, &chunk_list[0]);
    for (index, chunk) in chunk_list.iter().enumerate().skip(1) {
        let keys = format!("m={}", more(&chunk_list, index));
        expected.push_str(&escape(&keys, chunk));
    }

    assert_eq!(result, expected);
    assert!(result.contains(",m=1;"));
    assert!(result.ends_with("\x1b\\"));
    assert!(result.matches("\x1b_G").count() > 1);
}

#[test]
fn clear_deletes_all_images() {
    assert_eq!(clear().to_string(), "\x1b_Ga=d,d=A,q=2;\x1b\\");
}

#[test]
fn show_moves_the_cursor_to_the_sprite_cell_then_transmits_its_pixels() {
    let canvas = Canvas { pixels: vec![1, 2, 3, 4, 5, 6, 7, 8], width: 2, height: 1 };
    assert_eq!(
        show(&canvas, 3, 5).to_string(),
        format!("\x1b[6;4H{}", transmission(&canvas.pixels, canvas.width, canvas.height))
    );
}

#[test]
fn a_reply_containing_i_1_means_supported() {
    assert!(is_supported(b"\x1b_Gi=1;OK\x1b\\"));
}

#[test]
fn an_empty_reply_means_not_supported() {
    assert!(!is_supported(b""));
}

#[test]
fn an_unrelated_reply_means_not_supported() {
    assert!(!is_supported(b"\x1b[?62;c"));
}

#[test]
fn the_chunks_of_a_payload_join_back_into_it() {
    let payload = "abcdefghij".repeat(1000);
    let pieces = chunks(&payload, CHUNK_SIZE);
    assert_eq!(pieces.len(), 3);
    assert!(pieces.iter().all(|p| p.len() <= CHUNK_SIZE));
    assert_eq!(pieces.concat(), payload);
}

#[test]
fn an_encoded_image_is_not_its_raw_pixels() {
    let pixels = vec![0u8; 64];
    let encoded = encode(&pixels);
    assert_ne!(encoded.as_bytes(), &pixels[..]);
    assert!(encoded.is_ascii());
}
