use pixel_agents::pixels::{Rgba, RgbaImage};
use pixel_agents::renderer::{chunk_kitty_payload, encoded_frame, render_frame};

#[test]
fn test_empty_payload() {
    let chunks = chunk_kitty_payload("a=T,f=32,s=1,v=1,q=2,C=1", b"");
    assert_eq!(chunks.len(), 1);
    let chunk = String::from_utf8(chunks[0].clone()).unwrap();
    assert!(chunk.starts_with("\x1b_G"));
    assert!(chunk.contains("m=0"));
    assert!(chunk.ends_with("\x1b\\"));
}

#[test]
fn test_small_payload() {
    let data = b"AQAAAA==";
    let chunks = chunk_kitty_payload("a=T,f=32,s=1,v=1,q=2,C=1", data);
    assert_eq!(chunks.len(), 1);
    let chunk = String::from_utf8(chunks[0].clone()).unwrap();
    assert!(chunk.contains("m=0"));
    assert!(chunk.contains("AQAAAA=="));
}

#[test]
fn test_exact_chunk_boundary() {
    let data = vec![b'A'; 4096];
    let chunks = chunk_kitty_payload("a=T,f=32,s=1,v=1,q=2,C=1", &data);
    assert_eq!(chunks.len(), 1);
}

#[test]
fn test_one_byte_over_boundary() {
    let data = vec![b'A'; 4097];
    let chunks = chunk_kitty_payload("a=T,f=32,s=1,v=1,q=2,C=1", &data);
    assert_eq!(chunks.len(), 2);
    let first = String::from_utf8(chunks[0].clone()).unwrap();
    assert!(first.contains("a=T"));
    assert!(first.contains("m=1"));
    let last = String::from_utf8(chunks[1].clone()).unwrap();
    assert!(last.contains("m=0"));
    assert!(!last.contains("a=T"));
}

#[test]
fn test_three_chunks() {
    let data = vec![b'A'; 4096 * 2 + 100];
    let chunks = chunk_kitty_payload("a=T,f=32,s=1,v=1,q=2,C=1", &data);
    assert_eq!(chunks.len(), 3);
    let c0 = String::from_utf8(chunks[0].clone()).unwrap();
    let c1 = String::from_utf8(chunks[1].clone()).unwrap();
    let c2 = String::from_utf8(chunks[2].clone()).unwrap();
    assert!(c0.contains("m=1"));
    assert!(c1.contains("m=1"));
    assert!(c2.contains("m=0"));
}

/// A 2x2 opaque red image.
fn red_2x2() -> RgbaImage {
    let mut img = RgbaImage::new(2, 2);
    for y in 0..2 {
        for x in 0..2 {
            img.put_pixel(x, y, Rgba { r: 255, g: 0, b: 0, a: 255 });
        }
    }
    img
}

#[test]
fn test_render_frame_structure() {
    let img = red_2x2();
    let output = render_frame(&img, 1);
    let out_str = String::from_utf8_lossy(&output);
    assert!(out_str.starts_with("\x1b7")); // DECSC
    assert!(out_str.contains("\x1b[1;1H")); // cursor to origin
    assert!(out_str.contains("a=d,d=a,q=2")); // delete all
    assert!(out_str.contains("a=T,f=32")); // transmit RGBA
    assert!(out_str.contains("s=2,v=2")); // dimensions
    assert!(out_str.ends_with("\x1b8")); // DECRC
}

#[test]
fn test_render_frame_scaled() {
    let img = red_2x2();
    let output = render_frame(&img, 3);
    let out_str = String::from_utf8_lossy(&output);
    assert!(out_str.contains("s=6,v=6")); // 2*3=6
}

// ---- further cases ----

#[test]
fn chunks_are_exact_escape_sequences() {
    let data = vec![b'B'; 5000];
    let chunks = chunk_kitty_payload("a=T", &data);
    assert_eq!(chunks.len(), 2);
    let mut expected0 = b"\x1b_Ga=T,m=1;".to_vec();
    expected0.extend(vec![b'B'; 4096]);
    expected0.extend(b"\x1b\\");
    assert_eq!(chunks[0], expected0);
    let mut expected1 = b"\x1b_Gm=0;".to_vec();
    expected1.extend(vec![b'B'; 5000 - 4096]);
    expected1.extend(b"\x1b\\");
    assert_eq!(chunks[1], expected1);
}

#[test]
fn empty_payload_is_header_only() {
    let chunks = chunk_kitty_payload("q=2", b"");
    assert_eq!(chunks, vec![b"\x1b_Gq=2,m=0;\x1b\\".to_vec()]);
}

#[test]
fn frame_of_one_red_pixel_is_exact() {
    let mut img = RgbaImage::new(1, 1);
    img.put_pixel(0, 0, Rgba { r: 255, g: 0, b: 0, a: 255 });
    let out = render_frame(&img, 1);
    // the pixel bytes FF 00 00 FF encode as "/wAA/w=="
    let expected = b"\x1b7\x1b[1;1H\x1b_Ga=d,d=a,q=2;\x1b\\\x1b_Ga=T,f=32,s=1,v=1,q=2,C=1,m=0;/wAA/w==\x1b\\\x1b8";
    assert_eq!(out, expected.to_vec());
}

#[test]
fn scale_zero_counts_as_one() {
    let img = red_2x2();
    assert_eq!(render_frame(&img, 0), render_frame(&img, 1));
}

#[test]
fn scaled_frame_carries_scaled_pixels() {
    // 2x2 red scaled by 2 -> 4x4 red: 64 bytes, base64 length 88
    let img = red_2x2();
    let out = render_frame(&img, 2);
    let s = String::from_utf8_lossy(&out).to_string();
    assert!(s.contains("s=4,v=4"));
    let start = s.find("C=1,m=0;").unwrap() + "C=1,m=0;".len();
    let end = s[start..].find('\x1b').unwrap() + start;
    assert_eq!(end - start, 88);
}

#[test]
fn encoded_frame_wraps_payload_exactly() {
    let out = encoded_frame(3, 7, b"QUJD");
    let expected: &[u8] =
        b"\x1b7\x1b[1;1H\x1b_Ga=d,d=a,q=2;\x1b\\\x1b_Ga=T,f=32,s=3,v=7,q=2,C=1,m=0;QUJD\x1b\\\x1b8";
    assert_eq!(out.as_slice(), expected);
}

#[test]
fn encoded_frame_splits_long_payload() {
    let data = vec![b'A'; 5000];
    let out = encoded_frame(10, 20, &data);
    let text = String::from_utf8(out).unwrap();
    assert!(text.contains("s=10,v=20,q=2,C=1,m=1;"));
    assert_eq!(text.matches("\x1b_G").count(), 3);
    assert_eq!(text.matches("m=0;").count(), 1);
    assert!(text.ends_with("\x1b\\\x1b8"));
}
