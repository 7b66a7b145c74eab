use webview_capture::analysis::{
    change_row, diff_threshold, mean_row, region_change, region_mean, Fraction, PixelRect,
};
use webview_capture::luma::{frame_error, LumaImage};

fn img(w: u32, h: u32, px: &[u8]) -> LumaImage {
    LumaImage::from_raw(w, h, px.to_vec()).unwrap()
}

fn png(w: u32, h: u32, px: &[u8]) -> Vec<u8> {
    let buf = image::GrayImage::from_raw(w, h, px.to_vec()).unwrap();
    let mut out = std::io::Cursor::new(Vec::new());
    buf.write_to(&mut out, image::ImageFormat::Png).unwrap();
    out.into_inner()
}

#[test]
fn from_raw_needs_every_pixel() {
    assert!(LumaImage::from_raw(2, 2, vec![0; 3]).is_none());
    assert!(LumaImage::from_raw(2, 2, vec![0; 4]).is_some());
    assert!(LumaImage::from_raw(2, 2, vec![0; 5]).is_some());
    assert!(LumaImage::from_raw(0, 100, vec![]).is_some());
}

#[test]
fn mean_of_a_rectangle() {
    // 3x2 image
    let i = img(3, 2, &[10, 20, 30, 40, 50, 60]);
    assert_eq!(i.get_pixel(2, 1), 60);
    let all = PixelRect { x0: 0, y0: 0, x1: 3, y1: 2 };
    assert_eq!(region_mean(&i, all), Fraction { num: 210, den: 6 });
    let right = PixelRect { x0: 1, y0: 0, x1: 3, y1: 2 };
    assert_eq!(region_mean(&i, right), Fraction { num: 20 + 30 + 50 + 60, den: 4 });
    let empty = PixelRect { x0: 2, y0: 0, x1: 1, y1: 2 };
    assert_eq!(region_mean(&i, empty), Fraction { num: 0, den: 0 });
}

#[test]
fn clipped_rect_stays_inside_the_image() {
    let r = PixelRect::clipped(1, 1, 10, 10, 4, 3);
    assert_eq!(r, PixelRect { x0: 1, y0: 1, x1: 4, y1: 3 });
    let i = img(4, 3, &[1; 12]);
    assert_eq!(region_mean(&i, r), Fraction { num: 6, den: 6 });
    assert!(r.sum_fits());
}

#[test]
fn mean_row_follows_the_regions() {
    let i = img(2, 2, &[0, 255, 255, 255]);
    let rects = [
        PixelRect { x0: 0, y0: 0, x1: 1, y1: 1 },
        PixelRect { x0: 0, y0: 0, x1: 2, y1: 2 },
        PixelRect { x0: 1, y0: 0, x1: 2, y1: 2 },
    ];
    let row = mean_row(&i, &rects);
    assert_eq!(
        row,
        vec![
            Fraction { num: 0, den: 1 },
            Fraction { num: 765, den: 4 },
            Fraction { num: 510, den: 2 },
        ]
    );
}

#[test]
fn first_frame_has_no_change() {
    let cur = img(2, 1, &[0, 200]);
    let r = PixelRect { x0: 0, y0: 0, x1: 2, y1: 1 };
    assert_eq!(region_change(&cur, None, r, 30), Fraction { num: 0, den: 1 });
}

#[test]
fn resized_frame_counts_as_fully_changed() {
    let prev = img(2, 2, &[0; 4]);
    let cur = img(2, 1, &[0, 0]);
    let r = PixelRect { x0: 0, y0: 0, x1: 2, y1: 1 };
    assert_eq!(region_change(&cur, Some(&prev), r, 30), Fraction { num: 1, den: 1 });
}

#[test]
fn change_counts_pixels_beyond_the_threshold() {
    let prev = img(4, 1, &[100, 100, 100, 100]);
    let cur = img(4, 1, &[100, 130, 131, 60]);
    let r = PixelRect { x0: 0, y0: 0, x1: 4, y1: 1 };
    // |diff| = 0, 30, 31, 40; only those above 30 count
    assert_eq!(region_change(&cur, Some(&prev), r, 30), Fraction { num: 2, den: 4 });
    assert_eq!(region_change(&cur, Some(&prev), r, 0), Fraction { num: 3, den: 4 });
    let rects = [r, PixelRect { x0: 3, y0: 0, x1: 4, y1: 1 }];
    assert_eq!(
        change_row(&cur, Some(&prev), &rects, diff_threshold(None)),
        vec![Fraction { num: 2, den: 4 }, Fraction { num: 1, den: 1 }]
    );
    assert_eq!(change_row(&cur, None, &rects, 30), vec![Fraction { num: 0, den: 1 }; 2]);
}

#[test]
fn default_threshold_is_thirty() {
    assert_eq!(diff_threshold(None), 30);
    assert_eq!(diff_threshold(Some(5)), 5);
}

#[test]
fn decodes_png_frames_to_luma() {
    let bytes = png(3, 1, &[7, 8, 9]);
    let i = LumaImage::decode("f0000.png", &bytes).ok().unwrap();
    assert_eq!(i.dimensions(), (3, 1));
    assert_eq!((i.get_pixel(0, 0), i.get_pixel(1, 0), i.get_pixel(2, 0)), (7, 8, 9));
    assert_eq!(
        region_mean(&i, PixelRect { x0: 0, y0: 0, x1: 3, y1: 1 }),
        Fraction { num: 24, den: 3 }
    );
}

#[test]
fn undecodable_frame_names_its_path() {
    match LumaImage::decode("rec/f0003.png", b"not an image") {
        Err(e) => {
            let expected = image::load_from_memory_with_format(b"not an image", image::ImageFormat::Png)
                .err()
                .unwrap();
            assert_eq!(e.message(), format!("rec/f0003.png: {expected}"));
        }
        Ok(_) => panic!("garbage decoded"),
    }
}

#[test]
fn frame_error_message_format() {
    assert_eq!(frame_error("a/f0001.png", "truncated").message(), "a/f0001.png: truncated");
}
