use voxel_engine::render::DebugRenderer;

fn px(frame: &[u8], w: u32, x: u32, y: u32) -> [u8; 4] {
    let i = ((y * w + x) * 4) as usize;
    [frame[i], frame[i + 1], frame[i + 2], frame[i + 3]]
}

fn painted(frame: &[u8], w: u32, h: u32) -> Vec<(u32, u32)> {
    let mut out = Vec::new();
    for y in 0..h {
        for x in 0..w {
            if px(frame, w, x, y)[3] == 255 {
                out.push((x, y));
            }
        }
    }
    out
}

#[test]
fn put_px_sets_one_pixel() {
    let r = DebugRenderer::new(4, 3);
    assert_eq!((r.width, r.height), (4, 3));
    let mut f = vec![0u8; 48];
    r.put_px(&mut f, 2, 1, 10, 20, 30);
    assert_eq!(px(&f, 4, 2, 1), [10, 20, 30, 255]);
    assert_eq!(painted(&f, 4, 3), vec![(2, 1)]);
    r.put_px(&mut f, -1, 0, 1, 1, 1);
    r.put_px(&mut f, 4, 0, 1, 1, 1);
    r.put_px(&mut f, 0, 3, 1, 1, 1);
    assert_eq!(painted(&f, 4, 3), vec![(2, 1)]);
}

#[test]
fn fill_rect_is_clipped() {
    let r = DebugRenderer::new(5, 5);
    let mut f = vec![0u8; 100];
    r.fill_rect(&mut f, 3, -1, 4, 3, 7, 8, 9);
    assert_eq!(painted(&f, 5, 5), vec![(3, 0), (4, 0), (3, 1), (4, 1)]);
    assert_eq!(px(&f, 5, 4, 1), [7, 8, 9, 255]);
    let mut g = vec![0u8; 100];
    r.fill_rect(&mut g, 1, 1, 0, 3, 7, 8, 9);
    r.fill_rect(&mut g, 1, 1, -2, 3, 7, 8, 9);
    assert!(painted(&g, 5, 5).is_empty());
}

#[test]
fn rect_outline_draws_border() {
    let r = DebugRenderer::new(6, 6);
    let mut f = vec![0u8; 144];
    r.rect_outline(&mut f, 1, 1, 4, 3, 1, 2, 3);
    let p = painted(&f, 6, 6);
    assert_eq!(p.len(), 10);
    assert!(p.contains(&(1, 1)) && p.contains(&(4, 1)) && p.contains(&(1, 3)) && p.contains(&(4, 3)));
    assert!(p.contains(&(1, 2)) && p.contains(&(4, 2)));
    assert!(!p.contains(&(2, 2)) && !p.contains(&(3, 2)));
}

#[test]
fn line_follows_bresenham() {
    let r = DebugRenderer::new(8, 8);
    let mut f = vec![0u8; 256];
    r.line(&mut f, 0, 0, 5, 2, 9, 9, 9);
    assert_eq!(painted(&f, 8, 8), vec![(0, 0), (1, 0), (2, 1), (3, 1), (4, 2), (5, 2)]);
    let mut g = vec![0u8; 256];
    r.line(&mut g, 3, 3, 3, 3, 9, 9, 9);
    assert_eq!(painted(&g, 8, 8), vec![(3, 3)]);
    let mut h = vec![0u8; 256];
    r.line(&mut h, 2, 6, 2, -3, 9, 9, 9);
    assert_eq!(painted(&h, 8, 8), (0..7).map(|y| (2, y)).collect::<Vec<_>>());
}
