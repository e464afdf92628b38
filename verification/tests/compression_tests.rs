use cloudplay::compression::{can_compress, compress_frame};
use cloudplay::frame::{encode_pixel, makebase, pack_frame};

const HEADER: [u8; 4] = [0, 3, 0, 1];

fn frame(pixels: &[(u8, u8)]) -> Vec<u8> {
    let mut f = HEADER.to_vec();
    for (a, b) in pixels {
        f.push(*a);
        f.push(*b);
    }
    f
}

/// Reads a compressed frame back, as a viewer does.
fn decode(prev: &[u8], code: &[u8]) -> Vec<u8> {
    let mut out = code[..4].to_vec();
    let mut i = 4;
    while i < code.len() {
        let c = code[i];
        if c % 2 == 0 {
            let n = 2 * (c as usize / 2 + 1);
            let pos = out.len();
            out.extend_from_slice(&prev[pos..pos + n]);
            i += 1;
        } else if c % 4 == 3 {
            for _ in 0..(code[i + 2] as usize + 1) {
                out.push(c - 2);
                out.push(code[i + 1]);
            }
            i += 3;
        } else {
            out.push(c);
            out.push(code[i + 1]);
            i += 2;
        }
    }
    out
}

#[test]
fn header_only_frame_is_kept() {
    assert_eq!(compress_frame(HEADER.to_vec(), &Vec::new(), true), HEADER.to_vec());
}

#[test]
fn single_pixels_are_copied() {
    let f = frame(&[(5, 7), (9, 3)]);
    assert_eq!(compress_frame(f, &Vec::new(), true), vec![0, 3, 0, 1, 5, 7, 9, 3]);
}

#[test]
fn repeated_pixels_become_a_run() {
    let f = frame(&[(5, 7), (5, 7), (5, 7)]);
    assert_eq!(compress_frame(f, &Vec::new(), true), vec![0, 3, 0, 1, 7, 7, 2]);
}

#[test]
fn unchanged_pixels_become_a_skip_code() {
    let f = frame(&[(5, 7), (5, 7), (9, 9)]);
    let prev = frame(&[(5, 7), (5, 7), (1, 1)]);
    assert_eq!(compress_frame(f, &prev, false), vec![0, 3, 0, 1, 2, 9, 9]);
}

#[test]
fn changed_pixel_runs_are_compared_with_themselves() {
    let f = frame(&[(5, 7), (5, 7)]);
    let prev = frame(&[(1, 1), (5, 7)]);
    assert_eq!(compress_frame(f, &prev, false), vec![0, 3, 0, 1, 7, 7, 1]);
}

#[test]
fn skip_codes_cover_at_most_128_pixels() {
    let f = frame(&vec![(1, 2); 130]);
    let prev = f.clone();
    assert_eq!(compress_frame(f, &prev, false), vec![0, 3, 0, 1, 254, 2]);
}

#[test]
fn runs_cover_at_most_256_pixels() {
    let f = frame(&vec![(1, 2); 257]);
    assert_eq!(compress_frame(f, &Vec::new(), true), vec![0, 3, 0, 1, 3, 2, 255, 1, 2]);
}

#[test]
fn compressed_screen_frames_read_back() {
    let sums: Vec<(u16, u16, u16)> =
        vec![(0, 0, 0), (0, 0, 0), (900, 90, 9), (900, 90, 9), (900, 90, 9), (2295, 2295, 2295)];
    let f = pack_frame((3, 2), &sums);
    let prev_sums: Vec<(u16, u16, u16)> =
        vec![(0, 0, 0), (0, 0, 0), (0, 0, 0), (900, 90, 9), (900, 90, 9), (0, 0, 0)];
    let prev = pack_frame((3, 2), &prev_sums);
    assert!(can_compress(&f, &prev, false));
    let c = compress_frame(f.clone(), &prev, false);
    assert_eq!(decode(&prev, &c), f);
    let c2 = compress_frame(f.clone(), &prev, true);
    assert_eq!(decode(&prev, &c2), f);
}

#[test]
fn can_compress_checks_the_frame() {
    assert!(can_compress(&frame(&[(1, 1)]), &Vec::new(), true));
    assert!(!can_compress(&vec![0, 1, 0], &Vec::new(), true));
    assert!(!can_compress(&vec![0, 1, 0, 1, 5], &Vec::new(), true));
    assert!(!can_compress(&frame(&[(254, 1)]), &Vec::new(), true));
    assert!(!can_compress(&frame(&[(1, 1)]), &HEADER.to_vec(), false));
    assert!(can_compress(&frame(&[(253, 1)]), &frame(&[(0, 0)]), false));
}

#[test]
fn makebase_is_a_blank_frame() {
    let b = makebase((2, 3));
    let mut expected = vec![0, 2, 0, 3];
    expected.extend(vec![0u8; 12]);
    assert_eq!(b, expected);
    let big = makebase((300, 168));
    assert_eq!(&big[..4], &[1, 44, 0, 168]);
    assert_eq!(big.len(), 4 + 2 * 300 * 168);
}

#[test]
fn pixels_keep_four_bits_per_channel() {
    assert_eq!(encode_pixel(2295, 0, 0), (241, 0));
    assert_eq!(encode_pixel(0, 900, 1800), (1, 214));
    assert_eq!(encode_pixel(9 * 7, 9 * 8, 9 * 24), (1, 1 + 2 * 16));
    assert_eq!(encode_pixel(u16::MAX, u16::MAX, u16::MAX), (241, 255));
}

#[test]
fn packed_frame_has_header_and_pixels() {
    let f = pack_frame((2, 1), &vec![(2295, 0, 0), (0, 900, 1800)]);
    assert_eq!(f, vec![0, 2, 0, 1, 241, 0, 1, 214]);
}


#[test]
fn ignored_previous_frame_does_not_matter() {
    let f = frame(&[(5, 7), (5, 7), (0, 4), (9, 9)]);
    let a = compress_frame(f.clone(), &Vec::new(), true);
    let b = compress_frame(f.clone(), &frame(&[(5, 7), (5, 7), (0, 4), (9, 9)]), true);
    let c = compress_frame(f, &vec![1, 2, 3], true);
    assert_eq!(a, vec![0, 3, 0, 1, 7, 7, 1, 0, 4, 9, 9]);
    assert_eq!(a, b);
    assert_eq!(a, c);
}

#[test]
fn packed_frame_matches_blank_frame() {
    let base = makebase((3, 2));
    let f = pack_frame((3, 2), &vec![(900, 90, 9); 6]);
    assert_eq!(f.len(), base.len());
    assert_eq!(f[..4], base[..4]);
    assert!(can_compress(&f, &base, false));
}

#[test]
fn neighbouring_tokens_cannot_merge() {
    // A run stops where the pixel changes, and a single pixel is followed
    // by a different one.
    let f = frame(&[(5, 7), (5, 7), (5, 7), (9, 3), (5, 7)]);
    assert_eq!(compress_frame(f, &Vec::new(), true), vec![0, 3, 0, 1, 7, 7, 2, 9, 3, 5, 7]);
    // An unchanged stretch stops at the first changed pixel, which is then
    // written out because it differs from the previous frame.
    let prev = frame(&[(1, 1), (1, 1), (1, 1)]);
    let f = frame(&[(1, 1), (1, 1), (5, 1)]);
    assert_eq!(compress_frame(f, &prev, false), vec![0, 3, 0, 1, 2, 5, 1]);
}
