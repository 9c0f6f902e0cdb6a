//! The fixed palette of the language and the assembly of a program grid
//! from decoded pixel bytes: each codel takes the color of its top-left
//! pixel, sampled every `codel_size` pixels; unrecognized pixel values map
//! to a configurable fallback color.

use vstd::prelude::*;
use vstd::arithmetic::div_mod::lemma_fundamental_div_mod;

use crate::codel::Codel;
use crate::grid::grid_wf;
use crate::grid::gview;
use crate::pietcolor::Hue;
use crate::pietcolor::Lightness;
use crate::pietcolor::PietColor;

verus! {

/// The color a decoded pixel denotes: the eighteen chromatic palette
/// entries, White and Black; the reserved gray maps to the Smoke sentinel
/// when the raw-host-call extension is enabled and to the fallback
/// otherwise, as does every value outside the palette.
pub open spec fn palette_spec(
    r: u8,
    g: u8,
    b: u8,
    syscalls_enabled: bool,
    fallback: PietColor,
) -> PietColor {
    if r == 0xFF && g == 0xC0 && b == 0xC0 {
        PietColor { hue: Hue::Red, lightness: Lightness::Light }
    } else if r == 0xFF && g == 0x00 && b == 0x00 {
        PietColor { hue: Hue::Red, lightness: Lightness::Normal }
    } else if r == 0xC0 && g == 0x00 && b == 0x00 {
        PietColor { hue: Hue::Red, lightness: Lightness::Dark }
    } else if r == 0xFF && g == 0xFF && b == 0xC0 {
        PietColor { hue: Hue::Yellow, lightness: Lightness::Light }
    } else if r == 0xFF && g == 0xFF && b == 0x00 {
        PietColor { hue: Hue::Yellow, lightness: Lightness::Normal }
    } else if r == 0xC0 && g == 0xC0 && b == 0x00 {
        PietColor { hue: Hue::Yellow, lightness: Lightness::Dark }
    } else if r == 0xC0 && g == 0xFF && b == 0xC0 {
        PietColor { hue: Hue::Green, lightness: Lightness::Light }
    } else if r == 0x00 && g == 0xFF && b == 0x00 {
        PietColor { hue: Hue::Green, lightness: Lightness::Normal }
    } else if r == 0x00 && g == 0xC0 && b == 0x00 {
        PietColor { hue: Hue::Green, lightness: Lightness::Dark }
    } else if r == 0xC0 && g == 0xFF && b == 0xFF {
        PietColor { hue: Hue::Cyan, lightness: Lightness::Light }
    } else if r == 0x00 && g == 0xFF && b == 0xFF {
        PietColor { hue: Hue::Cyan, lightness: Lightness::Normal }
    } else if r == 0x00 && g == 0xC0 && b == 0xC0 {
        PietColor { hue: Hue::Cyan, lightness: Lightness::Dark }
    } else if r == 0xC0 && g == 0xC0 && b == 0xFF {
        PietColor { hue: Hue::Blue, lightness: Lightness::Light }
    } else if r == 0x00 && g == 0x00 && b == 0xFF {
        PietColor { hue: Hue::Blue, lightness: Lightness::Normal }
    } else if r == 0x00 && g == 0x00 && b == 0xC0 {
        PietColor { hue: Hue::Blue, lightness: Lightness::Dark }
    } else if r == 0xFF && g == 0xC0 && b == 0xFF {
        PietColor { hue: Hue::Magenta, lightness: Lightness::Light }
    } else if r == 0xFF && g == 0x00 && b == 0xFF {
        PietColor { hue: Hue::Magenta, lightness: Lightness::Normal }
    } else if r == 0xC0 && g == 0x00 && b == 0xC0 {
        PietColor { hue: Hue::Magenta, lightness: Lightness::Dark }
    } else if r == 0x00 && g == 0x00 && b == 0x00 {
        PietColor { hue: Hue::Black, lightness: Lightness::Normal }
    } else if r == 0xFF && g == 0xFF && b == 0xFF {
        PietColor { hue: Hue::White, lightness: Lightness::Normal }
    } else if r == 0xC0 && g == 0xC0 && b == 0xC0 {
        if syscalls_enabled {
            PietColor { hue: Hue::Smoke, lightness: Lightness::Normal }
        } else {
            fallback
        }
    } else {
        fallback
    }
}

/// Maps one decoded pixel to its palette color.
pub fn color_from_rgb(r: u8, g: u8, b: u8, syscalls_enabled: bool, fallback: PietColor) -> (c:
    PietColor)
    ensures
        c == palette_spec(r, g, b, syscalls_enabled, fallback),
{
    match (r, g, b) {
        (0xFF, 0xC0, 0xC0) => PietColor { hue: Hue::Red, lightness: Lightness::Light },
        (0xFF, 0x00, 0x00) => PietColor { hue: Hue::Red, lightness: Lightness::Normal },
        (0xC0, 0x00, 0x00) => PietColor { hue: Hue::Red, lightness: Lightness::Dark },
        (0xFF, 0xFF, 0xC0) => PietColor { hue: Hue::Yellow, lightness: Lightness::Light },
        (0xFF, 0xFF, 0x00) => PietColor { hue: Hue::Yellow, lightness: Lightness::Normal },
        (0xC0, 0xC0, 0x00) => PietColor { hue: Hue::Yellow, lightness: Lightness::Dark },
        (0xC0, 0xFF, 0xC0) => PietColor { hue: Hue::Green, lightness: Lightness::Light },
        (0x00, 0xFF, 0x00) => PietColor { hue: Hue::Green, lightness: Lightness::Normal },
        (0x00, 0xC0, 0x00) => PietColor { hue: Hue::Green, lightness: Lightness::Dark },
        (0xC0, 0xFF, 0xFF) => PietColor { hue: Hue::Cyan, lightness: Lightness::Light },
        (0x00, 0xFF, 0xFF) => PietColor { hue: Hue::Cyan, lightness: Lightness::Normal },
        (0x00, 0xC0, 0xC0) => PietColor { hue: Hue::Cyan, lightness: Lightness::Dark },
        (0xC0, 0xC0, 0xFF) => PietColor { hue: Hue::Blue, lightness: Lightness::Light },
        (0x00, 0x00, 0xFF) => PietColor { hue: Hue::Blue, lightness: Lightness::Normal },
        (0x00, 0x00, 0xC0) => PietColor { hue: Hue::Blue, lightness: Lightness::Dark },
        (0xFF, 0xC0, 0xFF) => PietColor { hue: Hue::Magenta, lightness: Lightness::Light },
        (0xFF, 0x00, 0xFF) => PietColor { hue: Hue::Magenta, lightness: Lightness::Normal },
        (0xC0, 0x00, 0xC0) => PietColor { hue: Hue::Magenta, lightness: Lightness::Dark },
        (0x00, 0x00, 0x00) => PietColor { hue: Hue::Black, lightness: Lightness::Normal },
        (0xFF, 0xFF, 0xFF) => PietColor { hue: Hue::White, lightness: Lightness::Normal },
        (0xC0, 0xC0, 0xC0) => {
            if syscalls_enabled {
                PietColor { hue: Hue::Smoke, lightness: Lightness::Normal }
            } else {
                fallback
            }
        },
        _ => fallback,
    }
}

/// The byte offset of the pixel sampled for codel (x, y).
pub open spec fn pixel_offset(x: int, y: int, codel_size: int, pic_width: int, vpp: int) -> int {
    (y * codel_size * pic_width + x * codel_size) * vpp
}

proof fn lemma_offset_in_range(
    x: int,
    y: int,
    gw: int,
    gh: int,
    cs: int,
    pw: int,
    ph: int,
    vpp: int,
)
    requires
        0 <= x < gw,
        0 <= y < gh,
        cs >= 1,
        vpp >= 3,
        pw >= 1,
        ph >= 1,
        gw == pw / cs,
        gh == ph / cs,
    ensures
        0 <= pixel_offset(x, y, cs, pw, vpp),
        pixel_offset(x, y, cs, pw, vpp) + 2 < ph * pw * vpp,
        y * cs * pw + x * cs >= 0,
        y * cs * pw + x * cs < ph * pw,
        y * cs < ph,
        x * cs < pw,
        0 <= y * cs,
        0 <= x * cs,
        0 <= y * cs * pw,
        ph * pw <= ph * pw * vpp,
        ph * pw * vpp == pw * ph * vpp,
{
    lemma_fundamental_div_mod(pw, cs);
    lemma_fundamental_div_mod(ph, cs);
    assert(gw * cs <= pw) by (nonlinear_arith)
        requires pw == cs * gw + pw % cs, pw % cs >= 0,
    ;
    assert(gh * cs <= ph) by (nonlinear_arith)
        requires ph == cs * gh + ph % cs, ph % cs >= 0,
    ;
    assert(y * cs <= ph - cs) by (nonlinear_arith)
        requires y < gh, gh * cs <= ph, cs >= 1,
    ;
    assert(x * cs <= pw - cs) by (nonlinear_arith)
        requires x < gw, gw * cs <= pw, cs >= 1,
    ;
    assert(y * cs * pw + x * cs >= 0) by (nonlinear_arith)
        requires y >= 0, x >= 0, cs >= 1, pw >= 1,
    ;
    assert(y * cs * pw + x * cs < ph * pw) by (nonlinear_arith)
        requires y * cs <= ph - cs, x * cs <= pw - cs, cs >= 1, pw >= 1, ph >= 1,
    ;
    assert((y * cs * pw + x * cs) * vpp + 2 < ph * pw * vpp) by (nonlinear_arith)
        requires y * cs * pw + x * cs < ph * pw, y * cs * pw + x * cs >= 0, vpp >= 3,
    ;
    assert(0 <= y * cs * pw) by (nonlinear_arith)
        requires 0 <= y, 0 <= cs, 0 <= pw,
    ;
    assert(ph * pw <= ph * pw * vpp) by (nonlinear_arith)
        requires ph >= 1, pw >= 1, vpp >= 3,
    ;
    assert(ph * pw * vpp == pw * ph * vpp) by (nonlinear_arith);
}

/// Builds the program grid from decoded pixel bytes: one codel per
/// `codel_size` by `codel_size` cell of the picture, colored by the palette
/// entry of its top-left pixel.
#[verifier::rlimit(40)]
#[verifier::loop_isolation(false)]
pub fn decode_grid(
    pixels: &[u8],
    values_per_pixel: usize,
    pic_width: usize,
    pic_height: usize,
    codel_size: usize,
    fallback: PietColor,
    syscalls_enabled: bool,
) -> (r: Vec<Vec<Codel>>)
    requires
        values_per_pixel == 3 || values_per_pixel == 4,
        codel_size >= 1,
        pic_width >= codel_size,
        pic_height >= codel_size,
        pixels@.len() >= pic_width * pic_height * values_per_pixel,
        (pic_width / codel_size) * (pic_height / codel_size) <= usize::MAX,
        (pic_width / codel_size) * (pic_height / codel_size) <= i64::MAX,
    ensures
        ({
            let g = gview(r@);
            let gw = pic_width as int / codel_size as int;
            let gh = pic_height as int / codel_size as int;
            &&& grid_wf(g)
            &&& g.len() == gh
            &&& g[0].len() == gw
            &&& forall|y: int, x: int|
                0 <= y < gh && 0 <= x < gw ==> (#[trigger] g[y][x]).color == palette_spec(
                    pixels@[pixel_offset(x, y, codel_size as int, pic_width as int,
                        values_per_pixel as int)],
                    pixels@[pixel_offset(x, y, codel_size as int, pic_width as int,
                        values_per_pixel as int) + 1],
                    pixels@[pixel_offset(x, y, codel_size as int, pic_width as int,
                        values_per_pixel as int) + 2],
                    syscalls_enabled,
                    fallback,
                )
        }),
{
    let gw = pic_width / codel_size;
    let gh = pic_height / codel_size;
    let total = pixels.len();
    proof {
        assert(gw >= 1) by (nonlinear_arith)
            requires
                gw == pic_width as int / codel_size as int,
                pic_width >= codel_size,
                codel_size >= 1,
        ;
        assert(gh >= 1) by (nonlinear_arith)
            requires
                gh == pic_height as int / codel_size as int,
                pic_height >= codel_size,
                codel_size >= 1,
        ;
        assert(total == pixels@.len());
    }
    let mut picture: Vec<Vec<Codel>> = Vec::new();
    let mut y: usize = 0;
    while y < gh
        invariant
            y <= gh,
            picture@.len() == y,
            forall|j: int| 0 <= j < y ==> (#[trigger] picture@[j])@.len() == gw,
            forall|j: int, i: int|
                0 <= j < y && 0 <= i < gw ==> (#[trigger] picture@[j]@[i]) == (Codel {
                    color: palette_spec(
                        pixels@[pixel_offset(i, j, codel_size as int, pic_width as int,
                            values_per_pixel as int)],
                        pixels@[pixel_offset(i, j, codel_size as int, pic_width as int,
                            values_per_pixel as int) + 1],
                        pixels@[pixel_offset(i, j, codel_size as int, pic_width as int,
                            values_per_pixel as int) + 2],
                        syscalls_enabled,
                        fallback,
                    ),
                    x: i as usize,
                    y: j as usize,
                }),
        decreases gh - y,
    {
        let mut row: Vec<Codel> = Vec::new();
        let mut x: usize = 0;
        while x < gw
            invariant
                x <= gw,
                y < gh,
                row@.len() == x,
                forall|i: int|
                    0 <= i < x ==> (#[trigger] row@[i]) == (Codel {
                        color: palette_spec(
                            pixels@[pixel_offset(i, y as int, codel_size as int, pic_width as int,
                                values_per_pixel as int)],
                            pixels@[pixel_offset(i, y as int, codel_size as int, pic_width as int,
                                values_per_pixel as int) + 1],
                            pixels@[pixel_offset(i, y as int, codel_size as int, pic_width as int,
                                values_per_pixel as int) + 2],
                            syscalls_enabled,
                            fallback,
                        ),
                        x: i as usize,
                        y: y as usize,
                    }),
            decreases gw - x,
        {
            proof {
                lemma_offset_in_range(
                    x as int,
                    y as int,
                    gw as int,
                    gh as int,
                    codel_size as int,
                    pic_width as int,
                    pic_height as int,
                    values_per_pixel as int,
                );
                assert(pic_height as int * pic_width as int * values_per_pixel as int <= total);
                assert(y as int * codel_size as int * pic_width as int <= pic_height as int
                    * pic_width as int);
            }
            let base = (y * codel_size * pic_width + x * codel_size) * values_per_pixel;
            let pr = pixels[base];
            let pg = pixels[base + 1];
            let pb = pixels[base + 2];
            let color = color_from_rgb(pr, pg, pb, syscalls_enabled, fallback);
            row.push(Codel { color, x, y });
            x = x + 1;
        }
        picture.push(row);
        y = y + 1;
    }
    proof {
        let g = gview(picture@);
        assert forall|j: int| 0 <= j < g.len() implies (#[trigger] g[j]).len() == gw by {
            assert(g[j] == picture@[j]@);
        }
        assert(gh >= 1 && gw >= 1);
        assert forall|j: int, i: int| 0 <= j < gh && 0 <= i < gw implies (#[trigger] g[j][i])
            == picture@[j]@[i] by {
            assert(g[j] == picture@[j]@);
        }
        assert(g.len() * g[0].len() <= usize::MAX && g.len() * g[0].len() <= i64::MAX)
            by (nonlinear_arith)
            requires
                g.len() == pic_height as int / codel_size as int,
                g[0].len() == pic_width as int / codel_size as int,
                (pic_width as int / codel_size as int) * (pic_height as int / codel_size as int)
                    <= usize::MAX,
                (pic_width as int / codel_size as int) * (pic_height as int / codel_size as int)
                    <= i64::MAX,
        ;
    }
    picture
}

} // verus!
