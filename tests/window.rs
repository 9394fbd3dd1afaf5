use rsdiff::window::Window;

#[test]
fn window_starts_on_first_block() {
    let window = Window::new(b"abcdefgh", 3);
    let (front, back) = window.frame();
    assert_eq!(front, b"abc");
    assert!(back.is_empty());
    assert_eq!(window.frame_size(), 6);
    assert!(window.has_frame());
    assert!(window.on_boundry());
    assert_eq!(window.bytes_read(), 0);
}

#[test]
fn window_slides_byte_by_byte() {
    let mut window = Window::new(b"abcdefgh", 3);
    assert_eq!(window.move_forword(), (Some(b'a'), Some(b'd')));
    let (front, back) = window.frame();
    assert_eq!(front, b"bc");
    assert_eq!(back, b"d");
    assert!(!window.on_boundry());
    assert_eq!(window.bytes_read(), 1);
    assert_eq!(window.move_forword(), (Some(b'b'), Some(b'e')));
    assert_eq!(window.move_forword(), (Some(b'c'), Some(b'f')));
    assert!(window.on_boundry());
    assert_eq!(window.move_forword(), (Some(b'd'), Some(b'g')));
    let (front, back) = window.frame();
    assert_eq!(front, b"ef");
    assert_eq!(back, b"g");
}

#[test]
fn window_runs_out_at_the_end() {
    let mut window = Window::new(b"abcd", 3);
    let mut seen = Vec::new();
    while window.has_frame() {
        let (tail, head) = window.move_forword();
        seen.push((tail, head));
    }
    assert_eq!(
        seen,
        vec![(Some(b'a'), Some(b'd')), (Some(b'b'), None), (Some(b'c'), None), (Some(b'd'), None)]
    );
    assert_eq!(window.bytes_read(), 4);
    assert_eq!(window.frame_size(), 0);
    assert!(window.on_boundry());
    assert_eq!(window.move_forword(), (None, None));
    assert_eq!(window.bytes_read(), 4);
    let (front, back) = window.frame();
    assert!(front.is_empty() && back.is_empty());
}

#[test]
fn window_over_empty_buffer() {
    let mut window = Window::new(b"", 4);
    assert!(!window.has_frame());
    assert_eq!(window.move_forword(), (None, None));
}
