//! Text and geometry that the screen is drawn from.
use vstd::prelude::*;
use vstd::utf8::{decode_utf8, encode_utf8, is_char_boundary};
use crate::ray::byte_len;
use crate::text::{decimal, push_decimal};

verus! {

/// The first 8 bytes of an id when it is longer than that, else the whole id.
pub open spec fn short_id_text(id: Seq<char>) -> Seq<char> {
    if byte_len(id) > 8 {
        decode_utf8(encode_utf8(id).subrange(0, 8))
    } else {
        id
    }
}

/// An id cut to its first 8 bytes, as the tables show node ids.
pub fn short_id(id: &str) -> (r: &str)
    requires
        byte_len(id@) > 8 ==> is_char_boundary(encode_utf8(id@), 8),
    ensures
        r@ == short_id_text(id@),
{
    let n = id.as_bytes().len();
    if n > 8 {
        let (a, _) = id.split_at(8);
        proof {
            vstd::utf8::encode_utf8_decode_utf8(a@);
        }
        a
    } else {
        id
    }
}

/// The "Nodes:" figure of the header: the node count, followed by the uptime
/// when there is one.
pub open spec fn nodes_summary_text(count: nat, uptime: Seq<char>) -> Seq<char> {
    if uptime.len() == 0 {
        decimal(count)
    } else {
        decimal(count) + seq![' ', ' ', 'u', 'p', ' '] + uptime
    }
}

/// The "Nodes:" figure of the header, as `"4"` or `"4  up 2d 3h 4m"`.
pub fn nodes_summary(count: usize, uptime: &str) -> (r: String)
    ensures
        r@ == nodes_summary_text(count as nat, uptime@),
{
    let mut out = String::new();
    push_decimal(&mut out, count as u64);
    if !uptime.is_empty() {
        out.push(' ');
        out.push(' ');
        out.push('u');
        out.push('p');
        out.push(' ');
        out.append(uptime);
    }
    assert(out@ =~= nodes_summary_text(count as nat, uptime@));
    out
}

/// A rectangle on the screen: column, row, width and height.
#[derive(Debug, Clone, Copy, PartialEq, Eq, Structural)]
pub struct Area {
    pub x: u16,
    pub y: u16,
    pub width: u16,
    pub height: u16,
}

/// `a - b`, or 0 when `b` is larger.
pub open spec fn sat_sub(a: u16, b: u16) -> u16 {
    if a > b {
        (a - b) as u16
    } else {
        0
    }
}

/// A popup of at most `w` by `h` cells, centred on an area of
/// `area_width` by `area_height` cells and keeping two cells clear on each side.
pub open spec fn centered_spec(w: u16, h: u16, area_width: u16, area_height: u16) -> Area {
    let w2 = if w < sat_sub(area_width, 4) {
        w
    } else {
        sat_sub(area_width, 4)
    };
    let h2 = if h < sat_sub(area_height, 4) {
        h
    } else {
        sat_sub(area_height, 4)
    };
    Area {
        x: (sat_sub(area_width, w2) / 2) as u16,
        y: (sat_sub(area_height, h2) / 2) as u16,
        width: w2,
        height: h2,
    }
}

/// The area of a popup of at most `w` by `h` cells centred on a screen area.
pub fn centered_rect(w: u16, h: u16, area_width: u16, area_height: u16) -> (r: Area)
    ensures
        r == centered_spec(w, h, area_width, area_height),
        r.x + r.width <= area_width,
        r.y + r.height <= area_height,
        r.width == (if area_width >= 4 && w > area_width - 4 {
            (area_width - 4) as u16
        } else if area_width < 4 {
            0
        } else {
            w
        }),
        r.height == (if area_height >= 4 && h > area_height - 4 {
            (area_height - 4) as u16
        } else if area_height < 4 {
            0
        } else {
            h
        }),
        r.x <= area_width - r.x - r.width <= r.x + 1,
        r.y <= area_height - r.y - r.height <= r.y + 1,
{
    let w = w.min(area_width.saturating_sub(4));
    let h = h.min(area_height.saturating_sub(4));
    Area {
        x: (area_width.saturating_sub(w)) / 2,
        y: (area_height.saturating_sub(h)) / 2,
        width: w,
        height: h,
    }
}

} // verus!
