//! The sprite texture cache: textures keyed by asset path with a default for
//! paths that are not (or cannot be) loaded, and the built-in sprites it is
//! seeded with.
use vstd::prelude::*;

use crate::sprites::{
    bird_pixel, ceiling_pixel, generate_bird_rgba, generate_ceiling_rgba, generate_grid_rgba,
    generate_ground_rgba, generate_pipe_rgba, grid_pixel, ground_pixel, image_bytes, pipe_pixel,
};
use crate::assets::{bytes_view, load_asset_bytes, resolved_bytes, EmbeddedAssets};
use crate::text::{copy_str, str_eq};

verus! {

/// Textures of type `T` keyed by asset path, with a default texture.
pub struct TextureCache<T> {
    default_texture: T,
    cached: Vec<(String, T)>,
}

impl<T> TextureCache<T> {
    /// The default texture.
    pub closed spec fn default_of(&self) -> T {
        self.default_texture
    }

    /// The cached textures by path.
    pub closed spec fn entries(&self) -> Map<Seq<char>, T> {
        Map::new(
            |p: Seq<char>| exists|i: int| 0 <= i < self.cached.len() && #[trigger] self.cached@[i].0@ == p,
            |p: Seq<char>| self.cached@[choose|i: int| 0 <= i < self.cached.len() && #[trigger] self.cached@[i].0@ == p].1,
        )
    }

    /// No path is cached twice.
    pub closed spec fn wf(&self) -> bool {
        forall|i: int, j: int| 0 <= i < j < self.cached.len() ==> #[trigger] self.cached@[i].0@ != #[trigger] self.cached@[j].0@
    }

    /// The texture shown for `path`: the cached one, or the default.
    pub open spec fn shown(&self, path: Option<Seq<char>>) -> T {
        match path {
            Some(p) => if self.entries().contains_key(p) { self.entries()[p] } else { self.default_of() },
            None => self.default_of(),
        }
    }

    /// An empty cache with the given default.
    pub fn new(default_texture: T) -> (r: Self)
        ensures
            r.wf(),
            r.default_of() == default_texture,
            r.entries() == Map::<Seq<char>, T>::empty(),
    {
        let r = TextureCache { default_texture, cached: Vec::new() };
        assert(r.entries() =~= Map::<Seq<char>, T>::empty());
        r
    }

    fn position(&self, path: &str) -> (r: Option<usize>)
        ensures
            r is None ==> !self.entries().contains_key(path@),
            r matches Some(i) ==> i < self.cached.len() && self.cached@[i as int].0@ == path@,
    {
        let mut i: usize = 0;
        while i < self.cached.len()
            invariant
                i <= self.cached.len(),
                forall|j: int| 0 <= j < i ==> #[trigger] self.cached@[j].0@ != path@,
            decreases self.cached.len() - i,
        {
            if str_eq(self.cached[i].0.as_str(), path) {
                return Some(i);
            }
            i = i + 1;
        }
        None
    }

    proof fn lemma_entry(&self, i: int)
        requires
            self.wf(),
            0 <= i < self.cached.len(),
        ensures
            self.entries().contains_key(self.cached@[i].0@),
            self.entries()[self.cached@[i].0@] == self.cached@[i].1,
    {
        let p = self.cached@[i].0@;
        assert(self.entries().contains_key(p));
        let k = choose|k: int| 0 <= k < self.cached.len() && #[trigger] self.cached@[k].0@ == p;
        if k != i {
            if k < i {
                assert(self.cached@[k].0@ != self.cached@[i].0@);
            } else {
                assert(self.cached@[i].0@ != self.cached@[k].0@);
            }
        }
    }

    /// Whether no path is cached twice (always so for a cache changed only
    /// through its own methods).
    pub fn is_well_formed(&self) -> (b: bool)
        ensures
            b == self.wf(),
    {
        let mut i: usize = 0;
        while i < self.cached.len()
            invariant
                i <= self.cached.len(),
                forall|a: int, b: int| 0 <= a < b < i ==> #[trigger] self.cached@[a].0@ != #[trigger] self.cached@[b].0@,
            decreases self.cached.len() - i,
        {
            let mut j: usize = 0;
            while j < i
                invariant
                    j <= i < self.cached.len(),
                    forall|a: int| 0 <= a < j ==> #[trigger] self.cached@[a].0@ != self.cached@[i as int].0@,
                decreases i - j,
            {
                if str_eq(self.cached[j].0.as_str(), self.cached[i].0.as_str()) {
                    return false;
                }
                j = j + 1;
            }
            i = i + 1;
        }
        true
    }

    /// Whether `path` is cached.
    pub fn contains(&self, path: &str) -> (r: bool)
        ensures
            r == self.entries().contains_key(path@),
    {
        match self.position(path) {
            Some(i) => {
                assert(self.entries().contains_key(self.cached@[i as int].0@));
                true
            },
            None => false,
        }
    }

    /// Caches `texture` under a path that is not cached yet.
    pub fn insert_new(&mut self, path: String, texture: T)
        requires
            old(self).wf(),
            !old(self).entries().contains_key(path@),
        ensures
            final(self).wf(),
            final(self).default_of() == old(self).default_of(),
            final(self).entries() == old(self).entries().insert(path@, texture),
    {
        let ghost p = path@;
        let ghost before = self.cached@;
        self.cached.push((path, texture));
        proof {
            assert forall|a: int, b: int| 0 <= a < b < self.cached.len() implies #[trigger] self.cached@[a].0@ != #[trigger] self.cached@[b].0@ by {
                if b == before.len() {
                    assert(before[a].0@ != p) by {
                        if before[a].0@ == p {
                            assert(old(self).entries().contains_key(p));
                        }
                    }
                } else {
                    assert(before[a].0@ != before[b].0@);
                }
            }
            assert forall|k: Seq<char>| #[trigger] self.entries().contains_key(k) <==> old(self).entries().insert(p, texture).contains_key(k) by {
                if old(self).entries().contains_key(k) {
                    let j = choose|j: int| 0 <= j < before.len() && #[trigger] before[j].0@ == k;
                    assert(self.cached@[j].0@ == k);
                }
                if k == p {
                    assert(self.cached@[before.len() as int].0@ == k);
                }
                if self.entries().contains_key(k) {
                    let j = choose|j: int| 0 <= j < self.cached.len() && #[trigger] self.cached@[j].0@ == k;
                    if j < before.len() {
                        assert(before[j].0@ == k);
                    }
                }
            }
            assert forall|k: Seq<char>| #[trigger] self.entries().contains_key(k) implies self.entries()[k] == old(self).entries().insert(p, texture)[k] by {
                let j = choose|j: int| 0 <= j < self.cached.len() && #[trigger] self.cached@[j].0@ == k;
                self.lemma_entry(j);
                if j < before.len() {
                    assert(before[j].0@ == k);
                    old(self).lemma_entry(j);
                }
            }
            assert(self.entries() =~= old(self).entries().insert(p, texture));
        }
    }

    /// The cached texture for `path`, the default when there is none or no
    /// path is given.
    pub fn get_or_default(&self, path: Option<&str>) -> (r: &T)
        requires
            self.wf(),
        ensures
            *r == self.shown(match path { Some(p) => Some(p@), None => None }),
    {
        match path {
            Some(p) => match self.position(p) {
                Some(i) => {
                    proof {
                        self.lemma_entry(i as int);
                    }
                    &self.cached[i].1
                },
                None => &self.default_texture,
            },
            None => &self.default_texture,
        }
    }

    /// Makes sure `path` is cached when it can be: a cached path is kept and
    /// `load` is not called; otherwise `load` runs once and a texture it
    /// returns is cached. Afterwards [`TextureCache::get_or_default`] shows
    /// the cached texture, or the default when loading failed.
    pub fn load_if_missing<F: FnOnce() -> Option<T>>(&mut self, path: &str, load: F)
        requires
            old(self).wf(),
            call_requires(load, ()),
        ensures
            final(self).wf(),
            final(self).default_of() == old(self).default_of(),
            old(self).entries().contains_key(path@) ==> final(self).entries() == old(self).entries(),
            !old(self).entries().contains_key(path@) ==> exists|o: Option<T>| #[trigger] call_ensures(load, (), o) && match o {
                Some(t) => final(self).entries() == old(self).entries().insert(path@, t),
                None => final(self).entries() == old(self).entries(),
            },
    {
        if self.contains(path) {
            return;
        }
        let loaded = load();
        match loaded {
            Some(t) => {
                self.insert_new(copy_str(path), t);
            },
            None => {},
        }
    }
}

// ---------------------------------------------------------------------------
// Texture files
// ---------------------------------------------------------------------------

/// Decodes an image file held in memory (`image::load_from_memory`, whose
/// format is guessed from the bytes) and converts it to RGBA8
/// (`DynamicImage::to_rgba8`), giving its width, height and raw pixel bytes
/// (`ImageBuffer::into_raw`); `None` when the bytes do not decode.
/// The contract claims only that the pixel bytes cover the image, four per
/// pixel: the buffer that `to_rgba8` returns holds at least `width * height
/// * 4` bytes (exactly that many with the crate's own decoders; a decoder
/// registered through the crate's process-wide hooks may report more).
/// Which image comes out is not stated: format detection and decoding
/// consult those process-wide hooks, so the result is not a function of the
/// bytes alone.
#[verifier::external_body]
fn decode_rgba(bytes: &[u8]) -> (r: Option<(u32, u32, Vec<u8>)>)
    ensures
        r matches Some((w, h, data)) ==> data@.len() >= w * h * 4,
{
    match image::load_from_memory(bytes) {
        Ok(img) => {
            let rgba = img.to_rgba8();
            let (w, h) = rgba.dimensions();
            Some((w, h, rgba.into_raw()))
        },
        Err(_) => None,
    }
}

/// The pixels of the texture file at `path`: its bytes are found as
/// [`load_asset_bytes`] finds them (`disk` is what reading the file from
/// disk gave) and decoded to RGBA8; `None` when the file is missing or does
/// not decode. Whatever the decoder gives, the pixel bytes cover the image.
pub fn load_texture_rgba(assets: &EmbeddedAssets, path: &str, disk_first: bool, disk: Option<Vec<u8>>) -> (r: Option<(u32, u32, Vec<u8>)>)
    requires
        assets.wf(),
    ensures
        resolved_bytes(assets@, path@, disk_first, bytes_view(disk)) is None ==> r is None,
        r matches Some((w, h, data)) ==> data@.len() >= w * h * 4,
{
    match load_asset_bytes(assets, path, disk_first, disk) {
        Some(bytes) => decode_rgba(bytes.as_slice()),
        None => None,
    }
}

// ---------------------------------------------------------------------------
// Built-in sprites
// ---------------------------------------------------------------------------

/// A procedurally drawn sprite and the asset path it is cached under.
pub struct BuiltinSprite {
    pub path: String,
    pub width: u32,
    pub height: u32,
    pub rgba: Vec<u8>,
}

/// The 1x1 opaque white texture shown for paths without a texture.
pub fn default_texture_rgba() -> (r: Vec<u8>)
    ensures
        r@ == seq![255u8, 255u8, 255u8, 255u8],
{
    let r = vec![255u8, 255u8, 255u8, 255u8];
    assert(r@ =~= seq![255u8, 255u8, 255u8, 255u8]);
    r
}

pub open spec fn sprite_matches(s: BuiltinSprite, path: Seq<char>, w: int, h: int, bytes: Seq<u8>) -> bool {
    s.path@ == path && s.width == w && s.height == h && s.rgba@ == bytes
}

/// The sprites of the flappy-bird demo, in the order the texture manager
/// caches them: the bird (128 x 128), the pipe (64 x 256), the ground and the
/// ceiling (256 x 32) and the background grid (256 x 144).
pub fn builtin_sprites() -> (r: Vec<BuiltinSprite>)
    ensures
        r.len() == 5,
        sprite_matches(r@[0], "assets/textures/bird.png"@, 128, 128, image_bytes(128, 128, |x: int, y: int| bird_pixel(x, y, 128, 128))),
        sprite_matches(r@[1], "assets/textures/pipe.png"@, 64, 256, image_bytes(64, 256, |x: int, y: int| pipe_pixel(x, y, 64, 256))),
        sprite_matches(r@[2], "assets/textures/ground.png"@, 256, 32, image_bytes(256, 32, |x: int, y: int| ground_pixel(x, y, 256, 32))),
        sprite_matches(r@[3], "assets/textures/ceiling.png"@, 256, 32, image_bytes(256, 32, |x: int, y: int| ceiling_pixel(x, y, 256, 32))),
        sprite_matches(r@[4], "assets/textures/grid.png"@, 256, 144, image_bytes(256, 144, |x: int, y: int| grid_pixel(x, y, 256, 144))),
{
    let mut r: Vec<BuiltinSprite> = Vec::new();
    r.push(BuiltinSprite { path: copy_str("assets/textures/bird.png"), width: 128, height: 128, rgba: generate_bird_rgba(128, 128) });
    r.push(BuiltinSprite { path: copy_str("assets/textures/pipe.png"), width: 64, height: 256, rgba: generate_pipe_rgba(64, 256) });
    r.push(BuiltinSprite { path: copy_str("assets/textures/ground.png"), width: 256, height: 32, rgba: generate_ground_rgba(256, 32) });
    r.push(BuiltinSprite { path: copy_str("assets/textures/ceiling.png"), width: 256, height: 32, rgba: generate_ceiling_rgba(256, 32) });
    r.push(BuiltinSprite { path: copy_str("assets/textures/grid.png"), width: 256, height: 144, rgba: generate_grid_rgba(256, 144) });
    r
}

} // verus!
