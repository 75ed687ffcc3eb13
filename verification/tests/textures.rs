use groot::sprites::{generate_bird_rgba, generate_grid_rgba};
use groot::textures::{builtin_sprites, default_texture_rgba, TextureCache};

#[test]
fn cache_falls_back_to_default() {
    let mut c: TextureCache<u32> = TextureCache::new(0);
    assert_eq!(*c.get_or_default(None), 0);
    assert_eq!(*c.get_or_default(Some("a.png")), 0);
    c.insert_new("a.png".to_string(), 7);
    assert!(c.contains("a.png"));
    assert_eq!(*c.get_or_default(Some("a.png")), 7);
    assert_eq!(*c.get_or_default(Some("b.png")), 0);
}

#[test]
fn loading_happens_once() {
    let mut c: TextureCache<u32> = TextureCache::new(0);
    let mut calls = 0;
    c.load_if_missing("a.png", || {
        calls += 1;
        Some(5)
    });
    c.load_if_missing("a.png", || {
        calls += 1;
        Some(6)
    });
    assert_eq!(calls, 1);
    assert_eq!(*c.get_or_default(Some("a.png")), 5);
    c.load_if_missing("broken.png", || None);
    assert!(!c.contains("broken.png"));
    assert_eq!(*c.get_or_default(Some("broken.png")), 0);
}

#[test]
fn builtin_sprite_set() {
    let s = builtin_sprites();
    let meta: Vec<(&str, u32, u32)> = s.iter().map(|x| (x.path.as_str(), x.width, x.height)).collect();
    assert_eq!(
        meta,
        vec![
            ("assets/textures/bird.png", 128, 128),
            ("assets/textures/pipe.png", 64, 256),
            ("assets/textures/ground.png", 256, 32),
            ("assets/textures/ceiling.png", 256, 32),
            ("assets/textures/grid.png", 256, 144),
        ]
    );
    assert_eq!(s[0].rgba, generate_bird_rgba(128, 128));
    assert_eq!(s[4].rgba, generate_grid_rgba(256, 144));
    assert_eq!(default_texture_rgba(), vec![255, 255, 255, 255]);
}

fn png_bytes(width: u32, height: u32, rgba: &[u8]) -> Vec<u8> {
    let img = image::RgbaImage::from_raw(width, height, rgba.to_vec()).expect("pixel buffer fits");
    let mut out = std::io::Cursor::new(Vec::new());
    image::DynamicImage::ImageRgba8(img)
        .write_to(&mut out, image::ImageFormat::Png)
        .expect("png encodes");
    out.into_inner()
}

#[test]
fn texture_files_are_decoded_to_rgba() {
    let pixels = [255u8, 0, 0, 255, 0, 255, 0, 128];
    let png = png_bytes(2, 1, &pixels);
    let mut assets = groot::assets::EmbeddedAssets::new();
    assets.insert("textures/dot.png".to_string(), png.clone());
    assets.insert("textures/broken.png".to_string(), vec![1, 2, 3]);

    let (w, h, data) = groot::textures::load_texture_rgba(&assets, "assets/textures/dot.png", false, None)
        .expect("embedded png decodes");
    assert_eq!((w, h), (2, 1));
    assert_eq!(data, pixels.to_vec());
    assert_ne!(data, png);

    assert!(groot::textures::load_texture_rgba(&assets, "assets/textures/broken.png", false, None).is_none());
    assert!(groot::textures::load_texture_rgba(&assets, "assets/textures/none.png", false, None).is_none());

    // A file read from disk wins in hot-reload builds.
    let disk = png_bytes(1, 1, &[9, 9, 9, 9]);
    let (w, h, data) = groot::textures::load_texture_rgba(&assets, "assets/textures/dot.png", true, Some(disk))
        .expect("disk png decodes");
    assert_eq!((w, h, data), (1, 1, vec![9, 9, 9, 9]));
}
