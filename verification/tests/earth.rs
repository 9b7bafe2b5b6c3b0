use flight_globe::earth::{update_normal, NormalImage};

fn patches(frames: &[NormalImage]) -> (usize, bool) {
    let mut already_ran = false;
    let mut count = 0;
    for frame in frames {
        if update_normal(&mut already_ran, *frame) {
            count += 1;
        }
    }
    (count, already_ran)
}

#[test]
fn format_is_patched_when_the_image_arrives() {
    let mut already_ran = false;
    assert!(!update_normal(&mut already_ran, NormalImage::Unset));
    assert!(!already_ran);
    assert!(!update_normal(&mut already_ran, NormalImage::Loading));
    assert!(!already_ran);
    assert!(update_normal(&mut already_ran, NormalImage::Loaded));
    assert!(already_ran);
}

#[test]
fn format_is_patched_once_however_long_loading_takes() {
    for waiting in 0..20 {
        let mut frames = vec![NormalImage::Unset];
        frames.extend(std::iter::repeat(NormalImage::Loading).take(waiting));
        frames.extend(std::iter::repeat(NormalImage::Loaded).take(30));
        assert_eq!(patches(&frames), (1, true));
    }
}

#[test]
fn format_is_not_patched_before_the_image_is_there() {
    assert_eq!(patches(&[]), (0, false));
    assert_eq!(patches(&[NormalImage::Unset, NormalImage::Loading, NormalImage::Loading]), (0, false));
}

#[test]
fn nothing_happens_once_the_patch_ran() {
    let mut already_ran = true;
    for image in [NormalImage::Unset, NormalImage::Loading, NormalImage::Loaded] {
        assert!(!update_normal(&mut already_ran, image));
        assert!(already_ran);
    }
}
