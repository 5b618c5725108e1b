//! The raster compositor: a fixed 320x200 RGBA framebuffer, an active
//! palette, and the blit operations that draw raw screens and patches.

use vstd::prelude::*;
use vstd::bytes::u32_from_le_bytes;

use crate::palette::Palette;
use crate::palette::PaletteError;
use crate::palette::Rgb;
use crate::palette::palette_entry;
use crate::patch::Patch;
use crate::patch::PatchError;
use crate::patch::col_offset;
use crate::patch::patch_h;
use crate::patch::patch_left;
use crate::patch::patch_top;
use crate::patch::patch_w;
use crate::wad::Wad;
use crate::wad::spec_last_match;

verus! {

/// Number of pixels in the framebuffer: 320 columns by 200 rows.
pub const FB_PIXELS: usize = 64000;

/// One framebuffer pixel, RGBA.
#[derive(Clone, Copy, PartialEq, Eq, Structural, Debug)]
pub struct Pixel {
    pub r: u8,
    pub g: u8,
    pub b: u8,
    pub a: u8,
}

/// The fully opaque pixel a palette entry maps to.
pub open spec fn opaque(c: Rgb) -> Pixel {
    Pixel { r: c.r, g: c.g, b: c.b, a: 255 }
}

/// The pixel of column `x`, row `y` in a row-major framebuffer.
pub open spec fn pixel_at(fb: Seq<Pixel>, x: int, y: int) -> Pixel {
    fb[y * 320 + x]
}

/// Failure of a compositor operation.
#[derive(Clone, Copy, PartialEq, Eq, Structural, Debug)]
pub enum VidError {
    /// No lump of the requested name exists.
    MissingLump,
    /// A draw call was issued before any palette was activated.
    NoPaletteActive,
    /// A patch's bounding box does not fit inside the framebuffer.
    DestinationOutOfBounds,
    /// The palette lump could not be decoded.
    Palette(PaletteError),
    /// The patch data could not be decoded.
    Patch(PatchError),
}

/// The fixed-size RGBA framebuffer, 320x200, stored row-major.
pub struct Framebuffer {
    data: Vec<Pixel>,
}

impl View for Framebuffer {
    type V = Seq<Pixel>;

    closed spec fn view(&self) -> Seq<Pixel> {
        self.data@
    }
}

impl Framebuffer {
    #[verifier::type_invariant]
    spec fn inv(self) -> bool {
        self.data@.len() == FB_PIXELS
    }

    /// A framebuffer of all-zero pixels.
    pub fn new() -> (fb: Framebuffer)
        ensures
            fb@.len() == FB_PIXELS,
            forall|k: int|
                0 <= k < FB_PIXELS ==> fb@[k] == (Pixel { r: 0, g: 0, b: 0, a: 0 }),
    {
        let mut data: Vec<Pixel> = Vec::new();
        for i in 0..FB_PIXELS
            invariant
                data@.len() == i,
                forall|k: int| 0 <= k < i ==> data@[k] == (Pixel { r: 0, g: 0, b: 0, a: 0 }),
        {
            data.push(Pixel { r: 0, g: 0, b: 0, a: 0 });
        }
        Framebuffer { data }
    }

    /// Read the pixel at a coordinate.
    pub fn get(&self, x: u32, y: u32) -> (p: Pixel)
        requires
            x < 320,
            y < 200,
        ensures
            p == pixel_at(self@, x as int, y as int),
    {
        proof {
            use_type_invariant(self);
        }
        self.data[(y as usize) * 320 + (x as usize)]
    }

    fn set(&mut self, x: u32, y: u32, p: Pixel)
        requires
            x < 320,
            y < 200,
        ensures
            final(self)@ == old(self)@.update((y as int) * 320 + x as int, p),
    {
        proof {
            use_type_invariant(&*self);
        }
        let i = (y as usize) * 320 + (x as usize);
        pixel_write(&mut self.data, i, p);
    }
}

/// Relies on `Vec`'s index assignment: an in-bounds element write
/// replaces exactly that element and cannot panic.
#[verifier::external_body]
fn pixel_write(v: &mut Vec<Pixel>, i: usize, p: Pixel)
    requires
        i < old(v).len(),
    ensures
        final(v)@ == old(v)@.update(i as int, p),
    no_unwind
{
    v[i] = p;
}

/// The compositor: borrows the loaded archive for lump resolution and
/// owns the framebuffer it draws into and the currently active palette.
pub struct Vid<'a> {
    wad: &'a Wad,
    fb: Framebuffer,
    palette: Option<Palette>,
}

impl<'a> Vid<'a> {
    /// The archive draw calls resolve lump names against.
    pub closed spec fn spec_wad(&self) -> Wad {
        *self.wad
    }

    /// The framebuffer contents.
    pub closed spec fn spec_fb(&self) -> Seq<Pixel> {
        self.fb@
    }

    /// The active palette's entries, if one has been activated.
    pub closed spec fn spec_palette(&self) -> Option<Seq<Rgb>> {
        match self.palette {
            Some(p) => Some(p@),
            None => None,
        }
    }

    /// A fresh compositor: no palette active yet.
    pub fn new(wad: &'a Wad, fb: Framebuffer) -> (v: Vid<'a>)
        ensures
            v.spec_wad() == *wad,
            v.spec_fb() == fb@,
            v.spec_palette() is None,
            v.spec_fb().len() == FB_PIXELS,
    {
        proof {
            use_type_invariant(&fb);
        }
        Vid { wad, fb, palette: None }
    }

    /// Read the pixel at a coordinate of the framebuffer.
    pub fn pixel(&self, x: u32, y: u32) -> (p: Pixel)
        requires
            x < 320,
            y < 200,
        ensures
            p == pixel_at(self.spec_fb(), x as int, y as int),
    {
        self.fb.get(x, y)
    }

    /// Resolve a lump by name (last match wins), decode it as a
    /// palette, and make that palette the active one. On failure the
    /// previously active palette stays in effect.
    pub fn set_palette(&mut self, lump: &str) -> (r: Result<(), VidError>)
        ensures
            final(self).spec_wad() == old(self).spec_wad(),
            final(self).spec_fb() == old(self).spec_fb(),
            match spec_last_match(old(self).spec_wad().lumps@, lump@) {
                None => r == Err::<(), VidError>(VidError::MissingLump)
                    && final(self).spec_palette() == old(self).spec_palette(),
                Some(i) => ({
                    let d = old(self).spec_wad().lumps@[i].data@;
                    if d.len() >= 768 {
                        &&& r == Ok::<(), VidError>(())
                        &&& final(self).spec_palette() matches Some(pal) && pal.len() == 256
                            && (forall|k: int| 0 <= k < 256 ==> pal[k] == palette_entry(d, k))
                    } else {
                        &&& r == Err::<(), VidError>(VidError::Palette(PaletteError::Truncated))
                        &&& final(self).spec_palette() == old(self).spec_palette()
                    }
                }),
            },
    {
        let w = self.wad;
        match w.cache_lump_name(lump) {
            None => Err(VidError::MissingLump),
            Some(d) => match Palette::decode(d) {
                Ok(p) => {
                    self.palette = Some(p);
                    Ok(())
                },
                Err(e) => Err(VidError::Palette(e)),
            },
        }
    }

    /// Blit a raw indexed screen of extent `w` by `h` onto the
    /// framebuffer: every framebuffer pixel inside the source extent is
    /// replaced by its palette color, fully opaque; every pixel outside
    /// the extent keeps its previous value.
    pub fn blit_raw(&mut self, data: &[u8], w: u32, h: u32) -> (r: Result<(), VidError>)
        requires
            data@.len() >= (w as int) * (h as int),
        ensures
            final(self).spec_wad() == old(self).spec_wad(),
            final(self).spec_palette() == old(self).spec_palette(),
            final(self).spec_fb().len() == old(self).spec_fb().len(),
            old(self).spec_palette() is None ==> r == Err::<(), VidError>(
                VidError::NoPaletteActive,
            ) && final(self).spec_fb() == old(self).spec_fb(),
            old(self).spec_palette() matches Some(pal) ==> r == Ok::<(), VidError>(()) && (forall|
                px: int,
                py: int,
            |
                0 <= px < 320 && 0 <= py < 200 ==> #[trigger] pixel_at(
                    final(self).spec_fb(),
                    px,
                    py,
                ) == (if px < w && py < h {
                    opaque(pal[data@[py * (w as int) + px] as int])
                } else {
                    pixel_at(
                        old(self).spec_fb(),
                        px,
                        py,
                    )
                })),
    {
        let ghost v0 = *self;
        let pal = match &self.palette {
            None => {
                return Err(VidError::NoPaletteActive);
            },
            Some(p) => p,
        };
        proof {
            use_type_invariant(&self.fb);
        }
        let dlen = data.len();
        let mut y: u32 = 0;
        while y < 200
            invariant
                y <= 200,
                dlen == data@.len(),
                data@.len() >= (w as int) * (h as int),
                self.wad == v0.wad,
                self.palette == v0.palette,
                v0.spec_palette() == Some(pal@),
                self.fb@.len() == FB_PIXELS,
                v0.fb@.len() == FB_PIXELS,
                forall|px: int, py: int|
                    0 <= px < 320 && 0 <= py < 200 ==> #[trigger] pixel_at(self.fb@, px, py) == (
                    if py < y && px < w && py < h {
                        opaque(pal@[data@[py * (w as int) + px] as int])
                    } else {
                        pixel_at(v0.fb@, px, py)
                    }),
            decreases 200 - y,
        {
            let mut x: u32 = 0;
            while x < 320
                invariant
                    x <= 320,
                    y < 200,
                    dlen == data@.len(),
                    data@.len() >= (w as int) * (h as int),
                    self.wad == v0.wad,
                    self.palette == v0.palette,
                    v0.spec_palette() == Some(pal@),
                    self.fb@.len() == FB_PIXELS,
                    v0.fb@.len() == FB_PIXELS,
                    forall|px: int, py: int|
                        0 <= px < 320 && 0 <= py < 200 ==> #[trigger] pixel_at(
                            self.fb@,
                            px,
                            py,
                        ) == (if (py < y || (py == y && px < x)) && px < w && py < h {
                            opaque(pal@[data@[py * (w as int) + px] as int])
                        } else {
                            pixel_at(v0.fb@, px, py)
                        }),
                decreases 320 - x,
            {
                let ghost fb_prev = self.fb@;
                if x < w && y < h {
                    proof {
                        assert((y as int) * (w as int) + (x as int) < (h as int) * (w as int))
                            by (nonlinear_arith)
                            requires
                                0 <= x < w,
                                0 <= y < h,
                        ;
                    }
                    let coord = (y as usize) * (w as usize) + (x as usize);
                    let c = pal.get(data[coord]);
                    let p = Pixel { r: c.r, g: c.g, b: c.b, a: 255 };
                    self.fb.set(x, y, p);
                    proof {
                        assert(p == opaque(
                            pal@[data@[(y as int) * (w as int) + x as int] as int],
                        ));
                        assert forall|px: int, py: int|
                            0 <= px < 320 && 0 <= py < 200 implies #[trigger] pixel_at(
                            self.fb@,
                            px,
                            py,
                        ) == (if (py < y || (py == y && px < x + 1)) && px < w && py < h {
                            opaque(pal@[data@[py * (w as int) + px] as int])
                        } else {
                            pixel_at(v0.fb@, px, py)
                        }) by {
                            if px == x as int && py == y as int {
                                assert(pixel_at(self.fb@, px, py) == p);
                            } else {
                                assert(py * 320 + px != (y as int) * 320 + (x as int));
                                assert(pixel_at(self.fb@, px, py) == pixel_at(fb_prev, px, py));
                            }
                        }
                    }
                } else {
                    proof {
                        assert forall|px: int, py: int|
                            0 <= px < 320 && 0 <= py < 200 implies #[trigger] pixel_at(
                            self.fb@,
                            px,
                            py,
                        ) == (if (py < y || (py == y && px < x + 1)) && px < w && py < h {
                            opaque(pal@[data@[py * (w as int) + px] as int])
                        } else {
                            pixel_at(v0.fb@, px, py)
                        }) by {
                            assert(pixel_at(self.fb@, px, py) == pixel_at(fb_prev, px, py));
                        }
                    }
                }
                x = x + 1;
            }
            y = y + 1;
        }
        Ok(())
    }

    /// Resolve a lump by name (last match wins) and blit it as a full
    /// 320x200 raw screen.
    pub fn draw_raw_screen(&mut self, lump: &str) -> (r: Result<(), VidError>)
        requires
            spec_last_match(old(self).spec_wad().lumps@, lump@) matches Some(i)
                ==> old(self).spec_wad().lumps@[i].data@.len() >= FB_PIXELS,
        ensures
            final(self).spec_wad() == old(self).spec_wad(),
            final(self).spec_palette() == old(self).spec_palette(),
            final(self).spec_fb().len() == old(self).spec_fb().len(),
            match spec_last_match(old(self).spec_wad().lumps@, lump@) {
                None => r == Err::<(), VidError>(VidError::MissingLump) && final(self).spec_fb()
                    == old(self).spec_fb(),
                Some(i) => ({
                    let d = old(self).spec_wad().lumps@[i].data@;
                    match old(self).spec_palette() {
                        None => r == Err::<(), VidError>(VidError::NoPaletteActive)
                            && final(self).spec_fb() == old(self).spec_fb(),
                        Some(pal) => r == Ok::<(), VidError>(()) && (forall|px: int, py: int|
                            0 <= px < 320 && 0 <= py < 200 ==> #[trigger] pixel_at(
                                final(self).spec_fb(),
                                px,
                                py,
                            ) == opaque(pal[d[py * 320 + px] as int])),
                    }
                }),
            },
    {
        let w = self.wad;
        match w.cache_lump_name(lump) {
            None => Err(VidError::MissingLump),
            Some(d) => self.blit_raw(d, 320, 200),
        }
    }

    /// Write one vertical run of palette indices at column `x`,
    /// starting at row `y`: each index is translated through the
    /// active palette and stored fully opaque.
    pub fn blit_column(&mut self, data: &[u8], x: u32, y: u32)
        requires
            old(self).spec_palette() is Some,
            x < 320,
            y + data@.len() <= 200,
        ensures
            final(self).spec_wad() == old(self).spec_wad(),
            final(self).spec_palette() == old(self).spec_palette(),
            final(self).spec_fb().len() == old(self).spec_fb().len(),
            final(self).spec_fb() == write_run(
                old(self).spec_fb(),
                old(self).spec_palette()->Some_0,
                data@,
                x as int,
                y as int,
            ),
    {
        let ghost v0 = *self;
        let pal = match &self.palette {
            Some(p) => p,
            None => {
                proof {
                    assert(false);
                }
                return ;
            },
        };
        proof {
            use_type_invariant(&self.fb);
        }
        let count = data.len();
        for k in 0..count
            invariant
                count == data@.len(),
                x < 320,
                y + count <= 200,
                self.wad == v0.wad,
                self.palette == v0.palette,
                v0.spec_palette() == Some(pal@),
                self.fb@.len() == FB_PIXELS,
                self.fb@ == write_run(v0.fb@, pal@, data@.take(k as int), x as int, y as int),
        {
            let c = pal.get(data[k]);
            self.fb.set(x, y as u32 + k as u32, Pixel { r: c.r, g: c.g, b: c.b, a: 255 });
            proof {
                let t = data@.take(k + 1);
                assert(t.drop_last() =~= data@.take(k as int));
                assert(t.last() == data@[k as int]);
            }
        }
        proof {
            assert(data@.take(count as int) =~= data@);
        }
    }

    /// Blit a patch at destination `(x, y)`: the stored origin offset
    /// is subtracted, the whole bounding box must fit the framebuffer
    /// (else the call is rejected before any write), and each column's
    /// runs are drawn until the terminator. A malformed offset or run
    /// stops the call at once; pixels already validated stay written.
    pub fn draw_patch_raw(&mut self, data: &[u8], x: u32, y: u32) -> (r: Result<(), VidError>)
        ensures
            final(self).spec_wad() == old(self).spec_wad(),
            final(self).spec_palette() == old(self).spec_palette(),
            final(self).spec_fb().len() == old(self).spec_fb().len(),
            patch_blit_post(
                old(self).spec_fb(),
                final(self).spec_fb(),
                old(self).spec_palette(),
                data@,
                x as int,
                y as int,
                r,
            ),
    {
        let ghost v0 = *self;
        if self.palette.is_none() {
            return Err(VidError::NoPaletteActive);
        }
        let ghost palv = self.spec_palette()->Some_0;
        proof {
            use_type_invariant(&self.fb);
        }
        let p = match Patch::read_header(data) {
            Ok(p) => p,
            Err(_) => {
                return Err(VidError::Patch(PatchError::OutOfBounds));
            },
        };
        let x0i = x as i64 - p.left as i64;
        let y0i = y as i64 - p.top as i64;
        if !(x0i >= 0 && y0i >= 0 && x0i + p.w as i64 <= 320 && y0i + p.h as i64 <= 200) {
            return Err(VidError::DestinationOutOfBounds);
        }
        let x0 = x0i as u32;
        let y0 = y0i as u32;
        let dlen = data.len();
        let pw = p.w;
        for c in 0..pw
            invariant
                v0 == *old(self),
                dlen == data@.len(),
                data@.len() >= 8,
                v0.spec_palette() == Some(palv),
                self.spec_wad() == v0.spec_wad(),
                self.spec_palette() == v0.spec_palette(),
                self.fb@.len() == FB_PIXELS,
                v0.fb@.len() == FB_PIXELS,
                pw == patch_w(data@) as u32,
                x0 == x - patch_left(data@),
                y0 == y - patch_top(data@),
                x0 + pw <= 320,
                y0 + patch_h(data@) <= 200,
                patch_fits(data@, x as int, y as int),
                apply_columns(v0.fb@, palv, data@, x0 as int, y0 as int, c as int) == (
                    self.fb@,
                    true,
                ),
        {
            let ghost fb_c = self.fb@;
            let dx = x0 + c;
            let toff = 8 + 4 * (c as usize);
            if toff + 4 > dlen {
                proof {
                    assert(apply_columns(
                        v0.fb@,
                        palv,
                        data@,
                        x0 as int,
                        y0 as int,
                        c as int + 1,
                    ) == (self.fb@, false));
                    lemma_apply_columns_stuck(
                        v0.fb@,
                        palv,
                        data@,
                        x0 as int,
                        y0 as int,
                        c as int + 1,
                        patch_w(data@) as int,
                    );
                }
                return Err(VidError::Patch(PatchError::OutOfBounds));
            }
            let co = u32_from_le_bytes(vstd::slice::slice_subrange(data, toff, toff + 4))
                as usize;
            proof {
                assert(co == col_offset(data@, c as int));
            }
            let mut o: usize = co;
            loop
                invariant
                    v0 == *old(self),
                    dlen == data@.len(),
                    data@.len() >= 8,
                    v0.spec_palette() == Some(palv),
                    self.spec_wad() == v0.spec_wad(),
                    self.spec_palette() == v0.spec_palette(),
                    self.fb@.len() == FB_PIXELS,
                    v0.fb@.len() == FB_PIXELS,
                    pw == patch_w(data@) as u32,
                    x0 == x - patch_left(data@),
                    y0 == y - patch_top(data@),
                    x0 + pw <= 320,
                    y0 + patch_h(data@) <= 200,
                    patch_fits(data@, x as int, y as int),
                    c < pw,
                    dx == x0 + c,
                    co == col_offset(data@, c as int),
                    12 + 4 * (c as int) <= dlen,
                    apply_columns(v0.fb@, palv, data@, x0 as int, y0 as int, c as int) == (
                        fb_c,
                        true,
                    ),
                    apply_column(self.fb@, palv, data@, o as int, dx as int, y0 as int)
                        == apply_column(fb_c, palv, data@, co as int, dx as int, y0 as int),
                ensures
                    self.spec_wad() == v0.spec_wad(),
                    self.spec_palette() == v0.spec_palette(),
                    self.fb@.len() == FB_PIXELS,
                    apply_column(fb_c, palv, data@, co as int, dx as int, y0 as int) == (
                        self.fb@,
                        true,
                    ),
                decreases dlen - o,
            {
                let ghost fb_in = self.fb@;
                if o >= dlen {
                    proof {
                        assert(apply_column(fb_in, palv, data@, o as int, dx as int, y0 as int)
                            == (self.fb@, false));
                        lemma_column_failure(
                            v0.fb@,
                            palv,
                            data@,
                            x0 as int,
                            y0 as int,
                            c as int,
                            pw as int,
                            fb_c,
                            self.fb@,
                            co as int,
                        );
                    }
                    return Err(VidError::Patch(PatchError::OutOfBounds));
                }
                let td = data[o];
                if td == 255 {
                    break ;
                }
                if dlen - o < 2 {
                    proof {
                        assert(apply_column(fb_in, palv, data@, o as int, dx as int, y0 as int)
                            == (self.fb@, false));
                        lemma_column_failure(
                            v0.fb@,
                            palv,
                            data@,
                            x0 as int,
                            y0 as int,
                            c as int,
                            pw as int,
                            fb_c,
                            self.fb@,
                            co as int,
                        );
                    }
                    return Err(VidError::Patch(PatchError::OutOfBounds));
                }
                let n = data[o + 1] as usize;
                if dlen - o < 3 + n {
                    proof {
                        assert(apply_column(fb_in, palv, data@, o as int, dx as int, y0 as int)
                            == (self.fb@, false));
                        lemma_column_failure(
                            v0.fb@,
                            palv,
                            data@,
                            x0 as int,
                            y0 as int,
                            c as int,
                            pw as int,
                            fb_c,
                            self.fb@,
                            co as int,
                        );
                    }
                    return Err(VidError::Patch(PatchError::OutOfBounds));
                }
                let dy = y0 + td as u32;
                if dy as usize + n > 200 {
                    proof {
                        assert(apply_column(fb_in, palv, data@, o as int, dx as int, y0 as int)
                            == (self.fb@, false));
                        lemma_column_failure(
                            v0.fb@,
                            palv,
                            data@,
                            x0 as int,
                            y0 as int,
                            c as int,
                            pw as int,
                            fb_c,
                            self.fb@,
                            co as int,
                        );
                    }
                    return Err(VidError::Patch(PatchError::OutOfBounds));
                }
                let run = vstd::slice::slice_subrange(data, o + 3, o + 3 + n);
                self.blit_column(run, dx, dy);
                if dlen - o < n + 5 {
                    proof {
                        assert(apply_column(fb_in, palv, data@, o as int, dx as int, y0 as int)
                            == (self.fb@, false));
                        lemma_column_failure(
                            v0.fb@,
                            palv,
                            data@,
                            x0 as int,
                            y0 as int,
                            c as int,
                            pw as int,
                            fb_c,
                            self.fb@,
                            co as int,
                        );
                    }
                    return Err(VidError::Patch(PatchError::OutOfBounds));
                }
                o = o + n + 4;
            }
        }
        proof {
            assert(apply_columns(
                v0.fb@,
                palv,
                data@,
                x0 as int,
                y0 as int,
                patch_w(data@) as int,
            ) == (self.fb@, true));
        }
        Ok(())
    }

    /// Resolve a lump by name (last match wins) and blit it as a patch
    /// at destination `(x, y)`.
    pub fn draw_patch(&mut self, x: u32, y: u32, lump: &str) -> (r: Result<(), VidError>)
        ensures
            final(self).spec_wad() == old(self).spec_wad(),
            final(self).spec_palette() == old(self).spec_palette(),
            final(self).spec_fb().len() == old(self).spec_fb().len(),
            match spec_last_match(old(self).spec_wad().lumps@, lump@) {
                None => r == Err::<(), VidError>(VidError::MissingLump) && final(self).spec_fb()
                    == old(self).spec_fb(),
                Some(i) => patch_blit_post(
                    old(self).spec_fb(),
                    final(self).spec_fb(),
                    old(self).spec_palette(),
                    old(self).spec_wad().lumps@[i].data@,
                    x as int,
                    y as int,
                    r,
                ),
            },
    {
        let w = self.wad;
        match w.cache_lump_name(lump) {
            None => Err(VidError::MissingLump),
            Some(d) => self.draw_patch_raw(d, x, y),
        }
    }
}

/// One run of pixels written at column `dx` from row `dy` down: index
/// `k` of the run lands on row `dy + k`, translated through the
/// palette and fully opaque.
pub open spec fn write_run(
    fb: Seq<Pixel>,
    pal: Seq<Rgb>,
    pixels: Seq<u8>,
    dx: int,
    dy: int,
) -> Seq<Pixel>
    decreases pixels.len(),
{
    if pixels.len() == 0 {
        fb
    } else {
        write_run(fb, pal, pixels.drop_last(), dx, dy).update(
            (dy + pixels.len() - 1) * 320 + dx,
            opaque(pal[pixels.last() as int]),
        )
    }
}

/// One column's traversal from offset `o`: read the top delta, stop at
/// the 255 terminator, otherwise read the run length, skip the padding
/// byte, draw the run, and advance. The flag is false when the data
/// runs out mid-column or a run would leave the framebuffer.
pub open spec fn apply_column(
    fb: Seq<Pixel>,
    pal: Seq<Rgb>,
    data: Seq<u8>,
    o: int,
    dx: int,
    ybase: int,
) -> (Seq<Pixel>, bool)
    decreases data.len() - o,
{
    if !(0 <= o < data.len()) {
        (fb, false)
    } else if data[o] == 255 {
        (fb, true)
    } else {
        let td = data[o] as int;
        let n = data[o + 1] as int;
        // When the length byte itself lies outside the data, this span
        // check fails for every value of `n`, so the stray read at
        // `o + 1` never decides the outcome.
        if o + 3 + n > data.len() {
            (fb, false)
        } else if ybase + td + n > 200 {
            (fb, false)
        } else {
            let fb2 = write_run(fb, pal, data.subrange(o + 3, o + 3 + n), dx, ybase + td);
            if o + 4 + n >= data.len() {
                (fb2, false)
            } else {
                apply_column(fb2, pal, data, o + 4 + n, dx, ybase)
            }
        }
    }
}

/// The first `c` columns of a patch applied in order, each from its
/// table offset. Stops at the first malformed column.
pub open spec fn apply_columns(
    fb: Seq<Pixel>,
    pal: Seq<Rgb>,
    data: Seq<u8>,
    xbase: int,
    ybase: int,
    c: int,
) -> (Seq<Pixel>, bool)
    decreases c,
{
    if c <= 0 {
        (fb, true)
    } else {
        let prev = apply_columns(fb, pal, data, xbase, ybase, c - 1);
        if !prev.1 {
            prev
        } else if 12 + 4 * (c - 1) > data.len() {
            (prev.0, false)
        } else {
            apply_column(prev.0, pal, data, col_offset(data, c - 1), xbase + c - 1, ybase)
        }
    }
}

/// A failed step in the current column ends the whole blit: every
/// later column leaves the framebuffer exactly as it stands.
proof fn lemma_column_failure(
    fb0: Seq<Pixel>,
    pal: Seq<Rgb>,
    data: Seq<u8>,
    xbase: int,
    ybase: int,
    c: int,
    w: int,
    fb_c: Seq<Pixel>,
    fbn: Seq<Pixel>,
    co: int,
)
    requires
        0 <= c < w,
        12 + 4 * c <= data.len(),
        apply_columns(fb0, pal, data, xbase, ybase, c) == (fb_c, true),
        co == col_offset(data, c),
        apply_column(fb_c, pal, data, co, xbase + c, ybase) == (fbn, false),
    ensures
        apply_columns(fb0, pal, data, xbase, ybase, w) == (fbn, false),
{
    assert(apply_columns(fb0, pal, data, xbase, ybase, c + 1) == (fbn, false));
    lemma_apply_columns_stuck(fb0, pal, data, xbase, ybase, c + 1, w);
}

/// Once a column fails, applying further columns changes nothing.
proof fn lemma_apply_columns_stuck(
    fb: Seq<Pixel>,
    pal: Seq<Rgb>,
    data: Seq<u8>,
    xbase: int,
    ybase: int,
    c1: int,
    c2: int,
)
    requires
        0 <= c1 <= c2,
        !apply_columns(fb, pal, data, xbase, ybase, c1).1,
    ensures
        apply_columns(fb, pal, data, xbase, ybase, c2) == apply_columns(
            fb,
            pal,
            data,
            xbase,
            ybase,
            c1,
        ),
    decreases c2 - c1,
{
    if c2 > c1 {
        lemma_apply_columns_stuck(fb, pal, data, xbase, ybase, c1, c2 - 1);
    }
}

/// A run writes only its own column, and only the rows it covers.
proof fn lemma_write_run_frame(fb: Seq<Pixel>, pal: Seq<Rgb>, pixels: Seq<u8>, dx: int, dy: int)
    requires
        fb.len() == FB_PIXELS,
        0 <= dx < 320,
        0 <= dy,
        dy + pixels.len() <= 200,
    ensures
        write_run(fb, pal, pixels, dx, dy).len() == fb.len(),
        forall|px: int, py: int|
            0 <= px < 320 && 0 <= py < 200 && !(px == dx && dy <= py < dy + pixels.len())
                ==> #[trigger] pixel_at(write_run(fb, pal, pixels, dx, dy), px, py) == pixel_at(
                fb,
                px,
                py,
            ),
    decreases pixels.len(),
{
    if pixels.len() > 0 {
        lemma_write_run_frame(fb, pal, pixels.drop_last(), dx, dy);
        let prev = write_run(fb, pal, pixels.drop_last(), dx, dy);
        let whole = write_run(fb, pal, pixels, dx, dy);
        assert forall|px: int, py: int|
            0 <= px < 320 && 0 <= py < 200 && !(px == dx && dy <= py < dy + pixels.len())
                implies #[trigger] pixel_at(whole, px, py) == pixel_at(fb, px, py) by {
            assert(pixel_at(prev, px, py) == pixel_at(fb, px, py));
            assert(py * 320 + px != (dy + pixels.len() - 1) * 320 + dx);
            assert(whole[py * 320 + px] == prev[py * 320 + px]);
        }
    }
}

/// A column's traversal writes only its own framebuffer column.
proof fn lemma_apply_column_frame(
    fb: Seq<Pixel>,
    pal: Seq<Rgb>,
    data: Seq<u8>,
    o: int,
    dx: int,
    ybase: int,
)
    requires
        fb.len() == FB_PIXELS,
        0 <= dx < 320,
        0 <= ybase,
    ensures
        apply_column(fb, pal, data, o, dx, ybase).0.len() == fb.len(),
        forall|px: int, py: int|
            0 <= px < 320 && 0 <= py < 200 && px != dx ==> #[trigger] pixel_at(
                apply_column(fb, pal, data, o, dx, ybase).0,
                px,
                py,
            ) == pixel_at(fb, px, py),
    decreases data.len() - o,
{
    if 0 <= o < data.len() && data[o] != 255 {
        let td = data[o] as int;
        let n = data[o + 1] as int;
        if o + 3 + n <= data.len() && ybase + td + n <= 200 {
            let run = data.subrange(o + 3, o + 3 + n);
            lemma_write_run_frame(fb, pal, run, dx, ybase + td);
            let fb2 = write_run(fb, pal, run, dx, ybase + td);
            if o + 4 + n < data.len() {
                lemma_apply_column_frame(fb2, pal, data, o + 4 + n, dx, ybase);
            }
        }
    }
}

/// Law: a patch blit is local. Applying the first `c` columns changes
/// no framebuffer pixel left of `xbase` or at `xbase + c` and beyond —
/// whether the traversal succeeds or stops on malformed data.
pub proof fn lemma_apply_columns_frame(
    fb: Seq<Pixel>,
    pal: Seq<Rgb>,
    data: Seq<u8>,
    xbase: int,
    ybase: int,
    c: int,
)
    requires
        fb.len() == FB_PIXELS,
        0 <= xbase,
        xbase + c <= 320,
        0 <= ybase,
    ensures
        apply_columns(fb, pal, data, xbase, ybase, c).0.len() == fb.len(),
        forall|px: int, py: int|
            0 <= px < 320 && 0 <= py < 200 && !(xbase <= px < xbase + c) ==> #[trigger] pixel_at(
                apply_columns(fb, pal, data, xbase, ybase, c).0,
                px,
                py,
            ) == pixel_at(fb, px, py),
    decreases c,
{
    if c > 0 {
        lemma_apply_columns_frame(fb, pal, data, xbase, ybase, c - 1);
        let prev = apply_columns(fb, pal, data, xbase, ybase, c - 1);
        if prev.1 && 12 + 4 * (c - 1) <= data.len() {
            lemma_apply_column_frame(prev.0, pal, data, col_offset(data, c - 1), xbase + c - 1, ybase);
        }
    }
}

/// The patch's declared bounding box, placed at the adjusted origin,
/// lies inside the framebuffer.
pub open spec fn patch_fits(b: Seq<u8>, x: int, y: int) -> bool {
    let x0 = x - patch_left(b);
    let y0 = y - patch_top(b);
    &&& 0 <= x0
    &&& 0 <= y0
    &&& x0 + patch_w(b) <= 320
    &&& y0 + patch_h(b) <= 200
}

/// What a patch blit leaves behind: with no palette the call fails and
/// the framebuffer is untouched; with a short header likewise; with a
/// bounding box outside the framebuffer the call is rejected with the
/// framebuffer untouched; otherwise the columns are applied in order
/// and the flag decides between success and a decode failure.
pub open spec fn patch_blit_post(
    fb0: Seq<Pixel>,
    fb1: Seq<Pixel>,
    palette: Option<Seq<Rgb>>,
    data: Seq<u8>,
    x: int,
    y: int,
    r: Result<(), VidError>,
) -> bool {
    match palette {
        None => r == Err::<(), VidError>(VidError::NoPaletteActive) && fb1 == fb0,
        Some(pal) => {
            if data.len() < 8 {
                r == Err::<(), VidError>(VidError::Patch(PatchError::OutOfBounds)) && fb1 == fb0
            } else if !patch_fits(data, x, y) {
                r == Err::<(), VidError>(VidError::DestinationOutOfBounds) && fb1 == fb0
            } else {
                let res = apply_columns(
                    fb0,
                    pal,
                    data,
                    x - patch_left(data),
                    y - patch_top(data),
                    patch_w(data) as int,
                );
                fb1 == res.0 && r == (if res.1 {
                    Ok::<(), VidError>(())
                } else {
                    Err::<(), VidError>(VidError::Patch(PatchError::OutOfBounds))
                })
            }
        },
    }
}

} // verus!
