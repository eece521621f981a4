use dcx::layout::{centered_rect, Area};

#[test]
fn popup_is_centred_in_the_screen() {
    let screen = Area { x: 0, y: 0, width: 100, height: 50 };
    assert_eq!(
        centered_rect(68, 60, screen),
        Area { x: 16, y: 10, width: 68, height: 30 }
    );
}

#[test]
fn popup_follows_the_screen_offset() {
    let screen = Area { x: 10, y: 5, width: 200, height: 100 };
    assert_eq!(
        centered_rect(50, 50, screen),
        Area { x: 60, y: 30, width: 100, height: 50 }
    );
}

#[test]
fn full_size_popup_covers_the_screen() {
    let screen = Area { x: 3, y: 4, width: 80, height: 24 };
    assert_eq!(centered_rect(100, 100, screen), screen);
}
