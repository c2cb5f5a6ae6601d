use dsweb::bitmap::Bitmap;
use dsweb::capture::{capture_step, CaptureStep, FrameOutcome, FRAME_PAUSE_NANOS, RELOAD_PAUSE_NANOS};
use dsweb::codec::{decode_tile, tile_message, tile_rgba, tile_yuv_fits};
use dsweb::convert::{clamp, i420_to_rgba};
use dsweb::ctrl::{
    ctrl_len, ctrl_step, decode_ctrl, key_down_message, key_up_message, mouse_down_message, mouse_up_message,
    move_message, on_key_down, on_key_up, wheel_message, ChannelMessage, CtrlAction, CtrlStep,
};
use dsweb::dscom::{get_rgb_block, rgb_blocks_filled, KEY_DOWN, KEY_UP, MOUSE_KEY_DOWN, MOUSE_KEY_UP, MOUSE_WHEEL_DOWN, MOUSE_WHEEL_UP, MOVE};
use dsweb::http::{last_segment_str, route_request, HttpRoute};
use dsweb::imop::{split_fits, split_i420_into_subimages, split_meta_info, tile_fits_exec, tile_origin};
use dsweb::stream::{block_meta, bytes_equal, changed_blocks, changed_tiles, frame_message, resync_step, screen_meta, tiles_comparable_check};
use dsweb::transfer::{
    admission, copy_reply, file_list_reply, join_names, parse_transfer, remove_first_str, starts_with_str, str_equal, Admission,
    TransferRequest,
};
use std::io::Write;

fn inflate(data: &[u8]) -> Vec<u8> {
    let mut d = flate2::write::DeflateDecoder::new(Vec::new());
    d.write_all(data).unwrap();
    d.finish().unwrap()
}

#[test]
fn bitmap_push_reports_new_keys_only() {
    let mut b = Bitmap::new();
    assert!(b.push(65));
    assert!(!b.push(65));
    assert!(b.push(0));
    assert!(b.push(127));
    assert!(b.push(128));
    assert!(b.push(255));
    assert!(!b.push(255));
    assert!(!b.push(128));
}

#[test]
fn bitmap_remove_then_push_again() {
    let mut b = Bitmap::new();
    assert!(b.push(200));
    b.remove(200);
    assert!(b.push(200));
    b.remove(17);
    assert!(!b.push(200));
    assert!(b.push(72));
    b.remove(72);
    assert!(!b.push(200));
    assert!(b.push(72));
}

#[test]
fn bitmap_halves_are_independent() {
    let mut b = Bitmap::new();
    assert!(b.push(5));
    assert!(b.push(133));
    b.remove(133);
    assert!(!b.push(5));
    assert!(b.push(133));
}

#[test]
fn ctrl_decodes_every_tag() {
    assert_eq!(decode_ctrl(&[KEY_UP, 13]), CtrlAction::KeyUp(13));
    assert_eq!(decode_ctrl(&[KEY_DOWN, 65]), CtrlAction::KeyDown(65));
    assert_eq!(decode_ctrl(&[MOUSE_KEY_UP, 2]), CtrlAction::MouseUp(2));
    assert_eq!(decode_ctrl(&[MOUSE_KEY_DOWN, 0]), CtrlAction::MouseDown(0));
    assert_eq!(decode_ctrl(&[MOUSE_WHEEL_UP]), CtrlAction::Scroll(-2));
    assert_eq!(decode_ctrl(&[MOUSE_WHEEL_DOWN]), CtrlAction::Scroll(2));
    assert_eq!(decode_ctrl(&[MOVE, 1, 2, 0, 255]), CtrlAction::MoveTo(258, 255));
    assert_eq!(decode_ctrl(&[9]), CtrlAction::Stop);
    assert_eq!(decode_ctrl(&[0, 1, 2]), CtrlAction::Stop);
}

#[test]
fn ctrl_message_lengths() {
    assert_eq!(ctrl_len(KEY_UP), 2);
    assert_eq!(ctrl_len(MOUSE_KEY_DOWN), 2);
    assert_eq!(ctrl_len(MOVE), 5);
    assert_eq!(ctrl_len(MOUSE_WHEEL_UP), 1);
    assert_eq!(ctrl_len(42), 1);
}

#[test]
fn ctrl_messages_round_trip() {
    assert_eq!(decode_ctrl(&key_down_message(90)), CtrlAction::KeyDown(90));
    assert_eq!(decode_ctrl(&key_up_message(90)), CtrlAction::KeyUp(90));
    assert_eq!(decode_ctrl(&mouse_down_message(1)), CtrlAction::MouseDown(1));
    assert_eq!(decode_ctrl(&mouse_up_message(1)), CtrlAction::MouseUp(1));
    assert_eq!(decode_ctrl(&wheel_message(true)), CtrlAction::Scroll(-2));
    assert_eq!(decode_ctrl(&wheel_message(false)), CtrlAction::Scroll(2));
    assert_eq!(move_message(1920, 1080), vec![MOVE, 7, 128, 4, 56]);
    assert_eq!(decode_ctrl(&move_message(1920, 1080)), CtrlAction::MoveTo(1920, 1080));
    assert_eq!(decode_ctrl(&move_message(65536 + 300, 70000)), CtrlAction::MoveTo(300, 70000 - 65536));
}

#[test]
fn ctrl_steps_of_the_session() {
    assert_eq!(ctrl_step(ChannelMessage::Close, &[]), CtrlStep::End);
    assert_eq!(ctrl_step(ChannelMessage::Other, &[]), CtrlStep::Skip);
    assert_eq!(ctrl_step(ChannelMessage::Binary, &[8]), CtrlStep::End);
    assert_eq!(ctrl_step(ChannelMessage::Binary, &[KEY_DOWN, 3]), CtrlStep::Perform(CtrlAction::KeyDown(3)));
}

#[test]
fn key_down_repeats_are_suppressed() {
    let mut held = Bitmap::new();
    assert_eq!(on_key_down(&mut held, 16), Some(vec![KEY_DOWN, 16]));
    assert_eq!(on_key_down(&mut held, 16), None);
    assert_eq!(on_key_up(&mut held, 16), vec![KEY_UP, 16]);
    assert_eq!(on_key_down(&mut held, 16), Some(vec![KEY_DOWN, 16]));
}

#[test]
fn rgb_blocks_cover_the_frame() {
    let (buf, srw, srh) = get_rgb_block(5, 3, 2, 2, 2);
    assert_eq!((srw, srh), (3, 2));
    assert_eq!(buf.len(), 6);
    for (i, b) in buf.iter().enumerate() {
        assert_eq!(b.len(), 2 + 12);
        assert_eq!(b[0], 0);
        assert_eq!(b[1], i as u8);
        assert!(b[2..].iter().all(|&x| x == 0));
    }
}

#[test]
fn rgb_blocks_exact_cover_and_empty_frame() {
    let (buf, srw, srh) = get_rgb_block(4, 4, 2, 2, 3);
    assert_eq!((srw, srh, buf.len()), (2, 2, 4));
    assert_eq!(buf[3][..3], [0, 0, 3]);
    let (buf, srw, srh) = get_rgb_block(0, 7, 2, 2, 0);
    assert_eq!((srw, srh, buf.len()), (0, 4, 0));
}

#[test]
fn rgb_block_index_is_big_endian() {
    let (buf, _, _) = dsweb::stream::get_rgb_block(300, 2, 1, 1, 2);
    assert_eq!(buf.len(), 600);
    assert_eq!(buf[300][0], 1);
    assert_eq!(buf[300][1], 44);
    assert_eq!(buf[300][2..], [255, 255, 255]);
    let (buf, _, _) = rgb_blocks_filled(1, 1, 1, 1, 2, 7);
    assert_eq!(buf, vec![vec![0, 0, 7, 7, 7]]);
}

#[test]
fn clamp_limits_to_a_byte() {
    assert_eq!(clamp(-5), 0);
    assert_eq!(clamp(0), 0);
    assert_eq!(clamp(128), 128);
    assert_eq!(clamp(255), 255);
    assert_eq!(clamp(300), 255);
}

#[test]
fn i420_grey_and_colour_pixels() {
    let mut dest = vec![9u8; 2 * 2 * 4 + 3];
    i420_to_rgba(2, 2, &[100, 100, 100, 100], &[128], &[128], &mut dest);
    assert_eq!(dest[..16], [100, 100, 100, 255, 100, 100, 100, 255, 100, 100, 100, 255, 100, 100, 100, 255]);
    assert_eq!(dest[16..], [9, 9, 9]);
    let mut dest = vec![0u8; 4];
    i420_to_rgba(1, 1, &[50], &[200], &[60], &mut dest);
    assert_eq!(dest, vec![0, 75, 177, 255]);
}

#[test]
fn i420_chroma_is_shared_by_two_by_two_pixels() {
    let sy = [10u8, 20, 30, 40, 50, 60, 70, 80];
    let mut dest = vec![0u8; 32];
    i420_to_rgba(4, 2, &sy, &[128, 255], &[128, 0], &mut dest);
    assert_eq!(dest[0..4], [10, 10, 10, 255]);
    assert_eq!(dest[4..8], [20, 20, 20, 255]);
    // pixel (0, 2): u = 127, v = -128
    assert_eq!(dest[8..12], [0, 78, 254, 255]);
    assert_eq!(dest[28..32], [0, 128, 255, 255]);
}

#[test]
fn i420_empty_image_leaves_dest() {
    let mut dest = vec![1u8, 2, 3];
    i420_to_rgba(0, 5, &[], &[], &[], &mut dest);
    assert_eq!(dest, vec![1, 2, 3]);
}

fn frame_8x4() -> Vec<u8> {
    let mut f: Vec<u8> = (0..32).collect();
    f.extend(100..108);
    f.extend(200..208);
    f
}

#[test]
fn split_meta_info_makes_zeroed_tiles() {
    let (sw, sh, subs) = split_meta_info(8, 4, 2, 2);
    assert_eq!((sw, sh), (4, 2));
    assert_eq!(subs.len(), 4);
    for s in &subs {
        assert_eq!(s.as_ref().unwrap(), &vec![0u8; 12]);
    }
    let (sw, sh, subs) = split_meta_info(7, 5, 3, 2);
    assert_eq!((sw, sh, subs.len()), (2, 2, 6));
    assert_eq!(subs[5].as_ref().unwrap().len(), 6);
}

#[test]
fn split_copies_each_tile() {
    let frame = frame_8x4();
    let (_, _, mut subs) = split_meta_info(8, 4, 2, 2);
    split_i420_into_subimages(&frame, &mut subs, 8, 4, 2, 2);
    assert_eq!(subs[0].as_ref().unwrap(), &vec![0, 1, 2, 3, 8, 9, 10, 11, 100, 101, 200, 201]);
    assert_eq!(subs[1].as_ref().unwrap(), &vec![4, 5, 6, 7, 12, 13, 14, 15, 102, 103, 202, 203]);
    assert_eq!(subs[2].as_ref().unwrap(), &vec![16, 17, 18, 19, 24, 25, 26, 27, 104, 105, 204, 205]);
    assert_eq!(subs[3].as_ref().unwrap(), &vec![20, 21, 22, 23, 28, 29, 30, 31, 106, 107, 206, 207]);
}

#[test]
fn split_skips_absent_tiles_and_extra_slots() {
    let frame = frame_8x4();
    let (_, _, mut subs) = split_meta_info(8, 4, 2, 2);
    subs[2] = None;
    subs.push(Some(vec![9, 9]));
    split_i420_into_subimages(&frame, &mut subs, 8, 4, 2, 2);
    assert!(subs[2].is_none());
    assert_eq!(subs[4], Some(vec![9, 9]));
    assert_eq!(subs[3].as_ref().unwrap()[0], 20);
}

#[test]
fn split_keeps_bytes_past_the_tile() {
    let frame = frame_8x4();
    let mut subs = vec![Some(vec![7u8; 14]), None, None, None];
    split_i420_into_subimages(&frame, &mut subs, 8, 4, 2, 2);
    assert_eq!(subs[0].as_ref().unwrap(), &vec![0, 1, 2, 3, 8, 9, 10, 11, 100, 101, 200, 201, 7, 7]);
}

#[test]
fn tile_origin_matches_grid() {
    assert_eq!(tile_origin(0, 4, 10, 20), (0, 0));
    assert_eq!(tile_origin(5, 4, 10, 20), (10, 20));
    assert_eq!(tile_origin(15, 4, 10, 20), (30, 60));
}

#[test]
fn tile_message_round_trips_to_rgba() {
    let tile: Vec<u8> = vec![100, 110, 120, 130, 128, 128];
    let msg = tile_message(&tile);
    assert_eq!(inflate(&msg), tile);
    let rgba = decode_tile(&msg, 2, 2).unwrap();
    assert_eq!(rgba, tile_rgba(&tile, 2, 2));
    assert_eq!(rgba[0..4], [100, 100, 100, 255]);
    assert_eq!(rgba[12..16], [130, 130, 130, 255]);
}

#[test]
fn decode_tile_refuses_bad_input() {
    assert_eq!(decode_tile(&[0xff, 0xff, 0xff, 0xff], 2, 2), None);
    let short = tile_message(&[1, 2, 3]);
    assert_eq!(decode_tile(&short, 2, 2), None);
    assert!(decode_tile(&tile_message(&[]), 0, 0).unwrap().is_empty());
}

#[test]
fn tile_fit_checks() {
    assert!(tile_yuv_fits(6, 2, 2));
    assert!(!tile_yuv_fits(5, 2, 2));
    assert!(!tile_yuv_fits(4, 2, 3));
    assert!(tile_yuv_fits(0, 0, 9));
    assert!(!tile_yuv_fits(100, usize::MAX, 2));
}

#[test]
fn changed_blocks_sends_only_differences() {
    let prev = vec![vec![1u8, 2], vec![3, 4], vec![5, 6]];
    let cur = vec![vec![1u8, 2], vec![3, 9], vec![5, 6, 7]];
    assert_eq!(changed_blocks(&prev, &cur, 3, false), vec![3, 9, 5, 6, 7]);
    assert_eq!(changed_blocks(&prev, &cur, 3, true), vec![1, 2, 3, 9, 5, 6, 7]);
    assert_eq!(changed_blocks(&prev, &cur, 1, false), Vec::<u8>::new());
    let m = frame_message(&prev, &cur, 3, false).unwrap();
    assert_eq!(inflate(&m), vec![3, 9, 5, 6, 7]);
}

#[test]
fn resync_every_hundred_frames() {
    assert_eq!(resync_step(0), (false, 1));
    assert_eq!(resync_step(99), (false, 100));
    assert_eq!(resync_step(100), (true, 1));
    assert_eq!(resync_step(usize::MAX), (true, 1));
    // counting from frame 0, frames 100 and 200 resend everything
    let mut k = 0usize;
    let mut full_frames = Vec::new();
    for frame in 0..=200usize {
        let (full, next) = resync_step(k);
        if full {
            full_frames.push(frame);
        }
        k = next;
    }
    assert_eq!(full_frames, vec![100, 200]);
}

#[test]
fn stream_headers() {
    assert_eq!(screen_meta(1920, 1080, 4, 4), vec![7, 128, 4, 56, 4, 4]);
    assert_eq!(screen_meta(65537, 2, 260, 1), vec![0, 1, 0, 2, 4, 1]);
    assert_eq!(block_meta(1920, 1080, 64, 32, 0xf0), vec![7, 128, 4, 56, 0, 64, 0, 32, 0xf0]);
}

#[test]
fn changed_tiles_compares_luma() {
    let old = vec![Some(vec![1u8, 2, 3]), Some(vec![4, 5, 6]), Some(vec![7, 8, 9])];
    let new = vec![Some(vec![1u8, 2, 0]), Some(vec![4, 0, 6]), Some(vec![0, 8, 9])];
    assert_eq!(changed_tiles(&new, &old, 3, 2), vec![1, 2]);
    assert_eq!(changed_tiles(&new, &old, 3, 0), Vec::<usize>::new());
    assert_eq!(changed_tiles(&new, &old, 1, 3), vec![0]);
    assert!(bytes_equal(&[1, 2], &[1, 2]));
    assert!(!bytes_equal(&[1, 2], &[1]));
}

#[test]
fn transfer_requests_are_parsed() {
    match parse_transfer("paste-text hello world", true) {
        TransferRequest::Paste(t) => assert_eq!(t, "hello world"),
        other => panic!("{:?}", other),
    }
    match parse_transfer("paste-textX paste-text y", false) {
        TransferRequest::Paste(t) => assert_eq!(t, "paste-textX y"),
        other => panic!("{:?}", other),
    }
    match parse_transfer("paste-text", false) {
        TransferRequest::Paste(t) => assert_eq!(t, "paste-text"),
        other => panic!("{:?}", other),
    }
    assert!(matches!(parse_transfer("copy-text", true), TransferRequest::Copy));
    assert!(matches!(parse_transfer("file-list", true), TransferRequest::FileList));
    assert!(matches!(parse_transfer("file-list", false), TransferRequest::Other));
    assert!(matches!(parse_transfer("hello", true), TransferRequest::Other));
    assert!(matches!(parse_transfer("", true), TransferRequest::Other));
}

#[test]
fn transfer_replies() {
    assert_eq!(copy_reply("abc"), "copy-text abc");
    assert_eq!(copy_reply(""), "copy-text ");
    assert_eq!(file_list_reply(&vec!["a.txt".to_string(), "b c".to_string()]), "file-list a.txt&b c");
    assert_eq!(file_list_reply(&vec![]), "file-list ");
    assert_eq!(join_names(&vec!["x".to_string()], "&"), "x");
    assert_eq!(join_names(&vec!["x".to_string(), "".to_string(), "z".to_string()], ", "), "x, , z");
}

#[test]
fn text_helpers() {
    assert!(starts_with_str("paste-text", "paste"));
    assert!(!starts_with_str("pas", "paste"));
    assert!(starts_with_str("héllo", "hé"));
    assert_eq!(remove_first_str("aXbXc", "X"), "abXc");
    assert_eq!(remove_first_str("abc", "X"), "abc");
    assert_eq!(remove_first_str("abc", ""), "abc");
    assert_eq!(remove_first_str("ünïcödé", "ïc"), "ünödé");
}

#[test]
fn http_routes() {
    assert!(matches!(route_request("/files", false), Some(HttpRoute::FileList)));
    assert!(matches!(route_request("/files/x", true), Some(HttpRoute::FileList)));
    match route_request("/download/a%20b%2Etxt", false) {
        Some(HttpRoute::Download(name)) => assert_eq!(name, "a b.txt"),
        other => panic!("{:?}", other),
    }
    match route_request("/download/%E4%BD%A0%zz%4", false) {
        Some(HttpRoute::Download(name)) => assert_eq!(name, "你%zz%4"),
        other => panic!("{:?}", other),
    }
    assert!(route_request("/download/%FF", false).is_none());
    assert!(matches!(route_request("/upload", true), Some(HttpRoute::UploadPreflight)));
    assert!(matches!(route_request("/upload/x", false), Some(HttpRoute::Upload)));
    assert!(matches!(route_request("/index.html", false), Some(HttpRoute::Unhandled)));
}

#[test]
fn last_segments() {
    assert_eq!(last_segment_str("/download/file.bin"), "file.bin");
    assert_eq!(last_segment_str("abc"), "abc");
    assert_eq!(last_segment_str("/x/y/"), "");
    assert_eq!(last_segment_str(""), "");
}

#[test]
fn capture_retry_policy() {
    assert_eq!(capture_step(FrameOutcome::Ready), CaptureStep { pause_nanos: 0, reload: false, done: true });
    assert_eq!(capture_step(FrameOutcome::WouldBlock), CaptureStep { pause_nanos: FRAME_PAUSE_NANOS, reload: false, done: false });
    assert_eq!(
        capture_step(FrameOutcome::Failed),
        CaptureStep { pause_nanos: FRAME_PAUSE_NANOS + RELOAD_PAUSE_NANOS, reload: true, done: false }
    );
    assert_eq!(capture_step(FrameOutcome::NoGrabber), CaptureStep { pause_nanos: RELOAD_PAUSE_NANOS, reload: true, done: false });
    assert_eq!(FRAME_PAUSE_NANOS, std::time::Duration::new(1, 0).as_nanos() as u64 / 60);
}

#[test]
fn split_fit_checks() {
    let (_, _, subs) = split_meta_info(8, 4, 2, 2);
    assert!(split_fits(48, &subs, 8, 4, 2, 2));
    assert!(!split_fits(43, &subs, 8, 4, 2, 2));
    assert!(!split_fits(48, &subs, 8, 4, 0, 2));
    assert!(!split_fits(48, &subs[..3].to_vec(), 8, 4, 2, 2));
    let none: Vec<Option<Vec<u8>>> = vec![None, None, None, None];
    assert!(split_fits(0, &none, 8, 4, 2, 2));
    assert!(!tile_fits_exec(100, 18, 4, 3, 1, 1, 0, 0));
    assert!(tile_fits_exec(24, 12, 4, 4, 1, 2, 1, 0));
    assert!(tile_fits_exec(0, 0, 4, 1, 1, 2, 1, 0));
}

#[test]
fn tiles_comparable_checks() {
    let a = vec![Some(vec![1u8, 2]), Some(vec![3u8])];
    let b = vec![Some(vec![1u8, 2]), None];
    assert!(tiles_comparable_check(&a, &a, 2, 1));
    assert!(!tiles_comparable_check(&a, &a, 2, 2));
    assert!(!tiles_comparable_check(&a, &b, 2, 1));
    assert!(tiles_comparable_check(&a, &b, 1, 2));
    assert!(!tiles_comparable_check(&a, &b, 3, 0));
}

#[test]
fn admission_of_sessions() {
    let one = |p: &str| vec![p.to_string()];
    assert_eq!(admission(&one("diffscreen"), false), Admission::Screen);
    assert_eq!(admission(&one("diffscreen"), true), Admission::Reject);
    assert_eq!(admission(&one("diffscreen-transfer"), true), Admission::Transfer);
    assert_eq!(admission(&one("diffscreen-x"), false), Admission::Reject);
    assert_eq!(admission(&vec![], false), Admission::Reject);
    assert_eq!(admission(&vec!["diffscreen".to_string(), "diffscreen".to_string()], false), Admission::Reject);
    assert!(str_equal("ab", "ab"));
    assert!(!str_equal("ab", "abc"));
    assert!(!str_equal("ab", "ac"));
}

#[test]
fn browser_picture_matches_frame() {
    let frame = frame_8x4();
    let mut whole = vec![0u8; 8 * 4 * 4];
    i420_to_rgba(8, 4, &frame[0..32], &frame[32..40], &frame[40..48], &mut whole);
    let (sw, sh, mut subs) = split_meta_info(8, 4, 2, 2);
    split_i420_into_subimages(&frame, &mut subs, 8, 4, 2, 2);
    for k in 0..4 {
        let packet = tile_message(subs[k].as_ref().unwrap());
        let img = decode_tile(&packet, sw, sh).unwrap();
        let (x0, y0) = tile_origin(k, 2, sw, sh);
        for r in 0..sh {
            for c in 0..sw {
                let t = 4 * (r * sw + c);
                let f = 4 * ((y0 + r) * 8 + (x0 + c));
                assert_eq!(img[t..t + 4], whole[f..f + 4]);
            }
        }
    }
}

#[test]
fn split_ignores_what_tiles_held() {
    let frame = frame_8x4();
    let (_, _, mut fresh) = split_meta_info(8, 4, 2, 2);
    let mut used = vec![Some(vec![7u8; 12]), Some(vec![200u8; 12]), None, Some(vec![1u8; 12]), Some(vec![5])];
    fresh[2] = None;
    fresh.push(Some(vec![5]));
    split_i420_into_subimages(&frame, &mut fresh, 8, 4, 2, 2);
    split_i420_into_subimages(&frame, &mut used, 8, 4, 2, 2);
    assert_eq!(fresh, used);
}

#[test]
fn tiles_reassemble_the_luma_plane() {
    let frame = frame_8x4();
    let (sw, sh, mut subs) = split_meta_info(8, 4, 2, 2);
    split_i420_into_subimages(&frame, &mut subs, 8, 4, 2, 2);
    for y in 0..4 {
        for x in 0..8 {
            let tile = subs[(y / sh) * 2 + x / sw].as_ref().unwrap();
            assert_eq!(tile[(y % sh) * sw + x % sw], frame[y * 8 + x]);
        }
    }
}

#[test]
fn key_sequence_reports_each_press_once() {
    let mut held = Bitmap::new();
    let mut sent = Vec::new();
    for (down, code) in [(true, 65u8), (true, 66), (true, 65), (false, 65), (true, 66), (true, 65), (false, 66), (true, 66)] {
        if down {
            if let Some(m) = on_key_down(&mut held, code) {
                sent.push(m);
            }
        } else {
            sent.push(on_key_up(&mut held, code));
        }
    }
    assert_eq!(
        sent,
        vec![vec![KEY_DOWN, 65], vec![KEY_DOWN, 66], vec![KEY_UP, 65], vec![KEY_DOWN, 65], vec![KEY_UP, 66], vec![KEY_DOWN, 66]]
    );
}
