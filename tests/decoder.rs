use ptyterm::{Decoded, Utf8Decoder};

fn text(d: &Decoded) -> String {
    d.text.clone().unwrap_or_default()
}

fn feed_chunks(chunks: &[&[u8]]) -> (String, usize, usize) {
    let mut dec = Utf8Decoder::new();
    let mut all = String::new();
    let mut dropped = 0;
    for c in chunks {
        let d = dec.feed(c);
        if let Some(t) = &d.text {
            assert!(!t.is_empty());
        }
        all.push_str(&text(&d));
        dropped += d.dropped;
    }
    (all, dropped, dec.pending_len())
}

#[test]
fn two_byte_char_split_across_feeds() {
    let bytes = "é".as_bytes();
    assert_eq!(bytes.len(), 2);
    let mut dec = Utf8Decoder::new();
    let first = dec.feed(&bytes[..1]);
    assert!(first.text.is_none());
    assert_eq!(first.dropped, 0);
    assert_eq!(dec.pending_len(), 1);
    let second = dec.feed(&bytes[1..]);
    assert_eq!(second.text.as_deref(), Some("é"));
    assert_eq!(second.dropped, 0);
    assert_eq!(dec.pending_len(), 0);
}

#[test]
fn invalid_bytes_then_ascii_are_dropped() {
    let mut dec = Utf8Decoder::new();
    let d = dec.feed(&[0x80, 0x80, 0x80, b'o', b'k']);
    assert_eq!(d.text.as_deref(), Some("ok"));
    assert_eq!(d.dropped, 3);
    assert_eq!(dec.pending_len(), 0);
}

#[test]
fn invalid_bytes_in_separate_feed_then_ascii() {
    let mut dec = Utf8Decoder::new();
    let d = dec.feed(&[0xff, 0xfe, 0x80]);
    assert!(d.text.is_none());
    assert_eq!(d.dropped, 3);
    assert_eq!(dec.pending_len(), 0);
    let d = dec.feed(b"ls");
    assert_eq!(d.text.as_deref(), Some("ls"));
    assert_eq!(d.dropped, 0);
}

#[test]
fn every_split_point_gives_the_same_text() {
    let s = "héllo wörld € 𝄞 end";
    let b = s.as_bytes();
    for i in 0..=b.len() {
        for j in i..=b.len() {
            let (t, dropped, pending) = feed_chunks(&[&b[..i], &b[i..j], &b[j..]]);
            assert_eq!(t, s);
            assert_eq!(dropped, 0);
            assert_eq!(pending, 0);
        }
    }
}

#[test]
fn byte_by_byte_feeding_matches_one_feed() {
    let s = "a€𝄞ü\r\n";
    let chunks: Vec<&[u8]> = s.as_bytes().chunks(1).collect();
    let (t, dropped, pending) = feed_chunks(&chunks);
    assert_eq!(t, s);
    assert_eq!(dropped, 0);
    assert_eq!(pending, 0);
    let (whole, _, _) = feed_chunks(&[s.as_bytes()]);
    assert_eq!(whole, t);
}

#[test]
fn mixed_stream_chunking_is_invariant() {
    let b: Vec<u8> = vec![b'x', 0xe2, 0x82, 0xac, 0xc0, 0x80, b'y', 0xf0, 0x9d, 0x84, 0x9e, 0xed, 0xa0, 0x80];
    let (one, d1, p1) = feed_chunks(&[&b]);
    for i in 0..=b.len() {
        let (two, d2, p2) = feed_chunks(&[&b[..i], &b[i..]]);
        assert_eq!(two, one);
        assert_eq!(d2, d1);
        assert_eq!(p2, p1);
    }
    assert_eq!(one, "x€y𝄞");
    assert_eq!(d1, 5);
}

#[test]
fn empty_feed_emits_nothing() {
    let mut dec = Utf8Decoder::new();
    let d = dec.feed(&[]);
    assert!(d.text.is_none());
    assert_eq!(d.dropped, 0);
}

#[test]
fn unfinished_tail_is_held_back() {
    let mut dec = Utf8Decoder::new();
    let d = dec.feed(&[b'a', 0xf0, 0x9f, 0x98]);
    assert_eq!(d.text.as_deref(), Some("a"));
    assert_eq!(dec.pending_len(), 3);
    let d = dec.feed(&[0x80]);
    assert_eq!(d.text.as_deref(), Some("😀"));
    assert_eq!(dec.pending_len(), 0);
}

#[test]
fn malformed_sequence_is_dropped_not_held() {
    let mut dec = Utf8Decoder::new();
    let d = dec.feed(&[0xe2, 0x82, b'z']);
    assert_eq!(d.text.as_deref(), Some("z"));
    assert_eq!(d.dropped, 2);
    assert_eq!(dec.pending_len(), 0);
}

#[test]
fn overlong_and_surrogate_encodings_are_dropped() {
    let mut dec = Utf8Decoder::new();
    let d = dec.feed(&[0xc1, 0xbf, 0xe0, 0x80, 0x80, 0xed, 0xa0, 0x80, 0xf4, 0x90, 0x80, 0x80]);
    assert!(d.text.is_none());
    assert_eq!(d.dropped, 12);
    assert_eq!(dec.pending_len(), 0);
}

#[test]
fn held_back_tail_never_reaches_four_bytes() {
    let mut dec = Utf8Decoder::new();
    for b in [0xf0u8, 0x9f, 0x98] {
        let d = dec.feed(&[b]);
        assert!(d.text.is_none());
        assert!(dec.pending_len() < 4);
    }
    let d = dec.feed(&[0x41]);
    assert_eq!(d.text.as_deref(), Some("A"));
    assert_eq!(d.dropped, 3);
    assert_eq!(dec.pending_len(), 0);
}
