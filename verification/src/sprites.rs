//! Procedural agent sprites.
use vstd::prelude::*;
use crate::agent::AgentState;
use crate::pixels::{fill_rect, in_rect, Rgba, RgbaImage};

verus! {

pub const SPRITE_WIDTH: u32 = 12;

pub const SPRITE_HEIGHT: u32 = 16;

/// Vertical bob of a walking frame: frame 1 is drawn one pixel higher.
pub open spec fn bob(frame: u32) -> int {
    if frame == 1 {
        -1
    } else {
        0
    }
}

/// Eye offset from the head centre: 0 down, 1 up, 2 right, 3 left, else centred.
pub open spec fn eye_offset(direction: u8) -> (int, int) {
    if direction == 0 {
        (0, 1)
    } else if direction == 1 {
        (0, -1)
    } else if direction == 2 {
        (1, 0)
    } else if direction == 3 {
        (-1, 0)
    } else {
        (0, 0)
    }
}

pub open spec fn white() -> Rgba {
    Rgba { r: 255, g: 255, b: 255, a: 255 }
}

pub open spec fn yellow() -> Rgba {
    Rgba { r: 255, g: 220, b: 0, a: 255 }
}

pub open spec fn light_blue() -> Rgba {
    Rgba { r: 100, g: 180, b: 255, a: 255 }
}

/// The state mark in the top row: two yellow cursor dots while typing, a light
/// blue bar while reading, three white dots while waiting.
pub open spec fn overlay_pixel(state: AgentState, x: int, y: int) -> Option<Rgba> {
    if y != 0 {
        None
    } else {
        match state {
            AgentState::Typing => if x == 5 || x == 6 {
                Some(yellow())
            } else {
                None
            },
            AgentState::Reading => if 4 <= x < 8 {
                Some(light_blue())
            } else {
                None
            },
            AgentState::Waiting => if x == 3 || x == 5 || x == 7 {
                Some(white())
            } else {
                None
            },
            _ => None,
        }
    }
}

/// The pixel at (x, y) of a 12x16 sprite (row 0 at the top): the state mark in
/// row 0, the head in columns 3..9 of rows 1..=4, the body in columns 2..10 of
/// rows 5..=15 (two pixels of padding on each side), head and body one row higher
/// (+bob) in walking frame 1; a 2x2 white eye inside the head, next to the
/// point (6, 2 + bob) towards `direction`; transparent elsewhere.
pub open spec fn sprite_pixel(
    body: Rgba,
    head: Rgba,
    state: AgentState,
    frame: u32,
    direction: u8,
    x: int,
    y: int,
) -> Rgba {
    let b = bob(frame);
    let ex = 6 + eye_offset(direction).0;
    let ey = 2 + b + eye_offset(direction).1;
    match overlay_pixel(state, x, y) {
        Some(c) => c,
        None => if in_rect(x, y, ex, ex + 2, ey, ey + 2) {
            white()
        } else if in_rect(x, y, 3, 9, 1 + b, 5 + b) {
            head
        } else if in_rect(x, y, 2, 10, 5 + b, 16) {
            body
        } else {
            Rgba::transparent()
        },
    }
}

/// Draws a 12x16 agent sprite with the given body and head colours; see
/// `sprite_pixel` for the layout.
pub fn generate_sprite(
    body_color: Rgba,
    head_color: Rgba,
    state: AgentState,
    frame: u32,
    direction: u8,
) -> (img: RgbaImage)
    ensures
        img.wf(),
        img.spec_width() == SPRITE_WIDTH,
        img.spec_height() == SPRITE_HEIGHT,
        forall|x: int, y: int|
            0 <= x < SPRITE_WIDTH && 0 <= y < SPRITE_HEIGHT ==> #[trigger] img.pixel(x, y)
                == sprite_pixel(body_color, head_color, state, frame, direction, x, y),
{
    let mut img = RgbaImage::new(SPRITE_WIDTH, SPRITE_HEIGHT);
    let eye_color = Rgba::opaque(255, 255, 255);

    // vertical bob: frame 1 shifts body and head up by one pixel
    let bob_i: i32 = if frame == 1 {
        -1
    } else {
        0
    };

    // body: x = 2..10, y = 5 + bob .. 16
    let body_y_start = (5 + bob_i) as u32;
    fill_rect(&mut img, 2, 10, body_y_start, 16, body_color);

    // head: x = 3..9, y = 1 + bob .. 5 + bob
    let head_y_start = (1 + bob_i) as u32;
    let head_y_end = (5 + bob_i) as u32;
    fill_rect(&mut img, 3, 9, head_y_start, head_y_end, head_color);

    // eye: a 2x2 dot inside the head, next to (6, head_y_start + 1)
    let (eye_dx, eye_dy): (i32, i32) = match direction {
        0 => (0, 1),
        1 => (0, -1),
        2 => (1, 0),
        3 => (-1, 0),
        _ => (0, 0),
    };
    let eye_x = (6 + eye_dx) as u32;
    let eye_y = (1 + bob_i + 1 + eye_dy) as u32;
    fill_rect(&mut img, eye_x, eye_x + 2, eye_y, eye_y + 2, eye_color);

    // state mark in the top row
    match state {
        AgentState::Typing => {
            let cursor = Rgba::opaque(255, 220, 0);
            img.put_pixel(5, 0, cursor);
            img.put_pixel(6, 0, cursor);
        },
        AgentState::Reading => {
            let blue = Rgba::opaque(100, 180, 255);
            let ghost before = img;
            let mut x: u32 = 4;
            while x < 8
                invariant
                    4 <= x <= 8,
                    img.wf(),
                    img.spec_width() == SPRITE_WIDTH,
                    img.spec_height() == SPRITE_HEIGHT,
                    blue == light_blue(),
                    forall|px: int, py: int|
                        0 <= px < SPRITE_WIDTH && 0 <= py < SPRITE_HEIGHT ==> #[trigger] img.pixel(
                            px,
                            py,
                        ) == (if py == 0 && 4 <= px < x {
                            light_blue()
                        } else {
                            before.pixel(px, py)
                        }),
                decreases 8 - x,
            {
                img.put_pixel(x, 0, blue);
                x = x + 1;
            }
        },
        AgentState::Waiting => {
            let dots = Rgba::opaque(255, 255, 255);
            img.put_pixel(3, 0, dots);
            img.put_pixel(5, 0, dots);
            img.put_pixel(7, 0, dots);
        },
        _ => {},
    }
    img
}

/// The sprite's layout: the two columns on each side are always clear; the body
/// fills columns 2..10 from row 5 (row 4 in walking frame 1) to the bottom; the
/// head spans columns 3..9 of rows 1..=4 (0..=3 in frame 1), the eye inside it,
/// so those head rows are opaque; row 0 holds only the state mark outside
/// frame 1.
pub proof fn law_sprite_layout(
    body: Rgba,
    head: Rgba,
    state: AgentState,
    frame: u32,
    direction: u8,
)
    requires
        body.a == 255,
        head.a == 255,
    ensures
        forall|y: int|
            0 <= y < SPRITE_HEIGHT ==> (#[trigger] sprite_pixel(body, head, state, frame, direction, 0, y)).a == 0
                && sprite_pixel(body, head, state, frame, direction, 1, y).a == 0
                && sprite_pixel(body, head, state, frame, direction, 10, y).a == 0
                && sprite_pixel(body, head, state, frame, direction, 11, y).a == 0,
        forall|x: int, y: int|
            2 <= x < 10 && 5 + bob(frame) <= y < SPRITE_HEIGHT ==> #[trigger] sprite_pixel(
                body,
                head,
                state,
                frame,
                direction,
                x,
                y,
            ) == body,
        forall|x: int, y: int|
            3 <= x < 9 && 1 + bob(frame) <= y < 5 + bob(frame) && y > 0 ==> (#[trigger] sprite_pixel(
                body,
                head,
                state,
                frame,
                direction,
                x,
                y,
            )).a == 255,
        frame != 1 ==> forall|x: int|
            0 <= x < SPRITE_WIDTH ==> #[trigger] sprite_pixel(body, head, state, frame, direction, x, 0)
                == match overlay_pixel(state, x, 0) {
                Some(c) => c,
                None => Rgba::transparent(),
            },
{
}

} // verus!
