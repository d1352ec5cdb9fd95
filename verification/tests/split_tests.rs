use b2_backup::split::{split, RollingSum};

fn pseudo_random(len: usize, seed: u64) -> Vec<u8> {
    let mut x = seed;
    let mut out = Vec::with_capacity(len);
    for _ in 0..len {
        x = x.wrapping_mul(6364136223846793005).wrapping_add(1442695040888963407);
        out.push(((x >> 33) & 0xFF) as u8);
    }
    out
}

fn ends(chunks: &[Vec<u8>]) -> Vec<usize> {
    let mut at = 0;
    chunks
        .iter()
        .map(|c| {
            at += c.len();
            at
        })
        .collect()
}

fn from_hex(text: &str) -> Vec<u8> {
    (0..text.len() / 2).map(|i| u8::from_str_radix(&text[2 * i..2 * i + 2], 16).unwrap()).collect()
}

const X: &str = "0ecefdedbd6f0ab46c770a0f440346e651e479f8e9ada484f38017ced86968549e659a34a7f3b64c27d38cba433cb4d9350274f89f703f26afa76da4b8a6934998383cd18dbd475c4d4301b7fef9fd1d00ffffffb480808080808080808080808080808080808080808080808080808080808080808180808080808080808080808080808080808080808080dd0dde32ff939249f4ea";

#[test]
fn empty_input_gives_no_chunk() {
    assert!(split(&[]).is_empty());
}

#[test]
fn short_input_is_one_chunk() {
    let data = vec![7u8; 100];
    let chunks = split(&data);
    assert_eq!(chunks, vec![data]);
}

#[test]
fn rolling_sum_reports_no_cut_on_empty_buffer() {
    let mut sum = RollingSum::new();
    assert_eq!(sum.split(&[]), None);
}

#[test]
fn crafted_input_is_cut_behind_byte_140() {
    let x = from_hex(X);
    assert_eq!(x.len(), 150);
    assert_eq!(ends(&split(&x)), vec![140, 150]);
}

#[test]
fn rolling_sum_stops_at_the_first_cut() {
    let x = from_hex(X);
    let mut sum = RollingSum::new();
    assert_eq!(sum.split(&x), Some(140));
}

#[test]
fn rolling_sum_carries_its_window_across_buffers() {
    let x = from_hex(X);
    let mut sum = RollingSum::new();
    assert_eq!(sum.split(&x[..100]), None);
    assert_eq!(sum.split(&x[100..]), Some(40));
}

#[test]
fn window_starts_over_after_a_cut() {
    // the bytes behind the cut are cut as a stream of their own would be
    let x = from_hex(X);
    let mut twice = x[..140].to_vec();
    twice.extend_from_slice(&x[..140]);
    assert_eq!(ends(&split(&twice)), vec![140, 280]);
}

#[test]
fn one_mebibyte_is_cut_at_the_known_places() {
    let data = pseudo_random(1 << 20, 12345);
    let cuts = ends(&split(&data));
    assert_eq!(cuts.len(), 43);
    assert_eq!(&cuts[..10], &[1211, 12843, 27386, 29865, 46945, 54557, 57838, 72571, 89792, 134969]);
    assert_eq!(&cuts[40..], &[1033514, 1046124, 1048576]);
}

#[test]
fn chunks_put_together_give_the_input() {
    let data = pseudo_random(300_000, 99);
    let chunks = split(&data);
    assert!(chunks.iter().all(|c| !c.is_empty()));
    assert_eq!(chunks.concat(), data);
}

#[test]
fn splitting_is_deterministic() {
    let data = pseudo_random(200_000, 5);
    assert_eq!(split(&data), split(&data));
}

#[test]
fn chunk_ends_before_an_edit_stay() {
    let x = pseudo_random(1 << 20, 12345);
    let mut y = x.clone();
    y[500_000] ^= 0xFF;
    let cx = ends(&split(&x));
    let cy = ends(&split(&y));
    let before_x: Vec<usize> = cx.iter().copied().filter(|&p| p <= 500_000).collect();
    let before_y: Vec<usize> = cy.iter().copied().filter(|&p| p <= 500_000).collect();
    assert_eq!(before_x, before_y);
}

#[test]
fn chunk_ends_far_behind_an_edit_stay_when_none_lies_close_behind_it() {
    let x = pseudo_random(1 << 20, 12345);
    let mut y = x.clone();
    y[500_000] ^= 0xFF;
    let cx = ends(&split(&x));
    let cy = ends(&split(&y));
    // neither stream is cut within the 63 positions behind the edit
    assert!(cx.iter().chain(cy.iter()).all(|&p| p <= 500_001 || p >= 500_065));
    let after_x: Vec<usize> = cx.iter().copied().filter(|&p| p >= 500_065).collect();
    let after_y: Vec<usize> = cy.iter().copied().filter(|&p| p >= 500_065).collect();
    assert_eq!(after_x, after_y);
}

#[test]
fn an_edit_can_move_a_chunk_end_that_lies_further_than_a_window_behind_it() {
    // a cut that the edit brings about less than a window behind it starts the
    // window over, and the cut at 140 is lost
    let x = from_hex(X);
    let mut y = x.clone();
    y[70] = 0xe4;
    assert_eq!(ends(&split(&x)), vec![140, 150]);
    assert_eq!(ends(&split(&y)), vec![81, 150]);
}

#[test]
fn insertion_changes_few_chunks() {
    let x = pseudo_random(1 << 20, 12345);
    let mut y = x[..400_000].to_vec();
    y.extend_from_slice(&pseudo_random(1000, 77));
    y.extend_from_slice(&x[400_000..]);
    let a = split(&x);
    let b = split(&y);
    let fresh = b.iter().filter(|c| !a.contains(c)).count();
    assert!(fresh <= 3);
}

#[test]
fn inserted_bytes_can_hold_more_chunks_than_their_length_suggests() {
    // four different chunks of 81 bytes, each cut at its end
    let short = [
        "0ecefdedbd6f0ab46c770a0f440346e651e479f8e9ada484f38017ced86968549e659a34a7f3b64c27d38cba433cb4d9350274f89f703f26afa76da4cc91934998383cd18dbde45c4d4301b7fef9fd1d00",
        "0ecefdedbd6f0ab46c770a0f440346e651e479f8e9ada484f38017ced86968549e659a34a7f3b64c27d38cba433cb4d9350274f89f703f26afa76da4a4bb934998383cd18dbde45c4d4301b7fef9fd1d00",
        "0ecefdedbd6f0ab46c770a0f440346e651e479f8e9ada484f38017ced86968549e659a34a7f3b64c27d38cba433cb4d9350274f89f703f26afa76da4cba67e4998383cd18dbde45c4d4301b7fef9fd1d00",
        "0ecefdedbd6f0ab46c770a0f440346e651e479f8e9ada484f38017ced86968549e659a34a7f3b64c27d38cba433cb4d9350274f89f703f26afa76da4a5a6a84998383cd18dbde45c4d4301b7fef9fd1d00",
    ];
    let x = pseudo_random(100_000, 12345);
    let first_end = ends(&split(&x))[0];
    let mut y = x[..first_end].to_vec();
    for chunk in short {
        y.extend_from_slice(&from_hex(chunk));
    }
    y.extend_from_slice(&x[first_end..]);
    let a = split(&x);
    let b = split(&y);
    let fresh: Vec<&Vec<u8>> = b.iter().filter(|c| !a.contains(c)).collect();
    assert_eq!(fresh.len(), 4);
    assert!(fresh.iter().all(|c| c.len() == 81));
    assert_eq!(b.len(), a.len() + 4);
}
