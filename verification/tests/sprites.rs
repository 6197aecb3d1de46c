use pixel_agents::agent::AgentState;
use pixel_agents::pixels::Rgba;
use pixel_agents::sprites::{generate_sprite, SPRITE_HEIGHT, SPRITE_WIDTH};

// Body and head colours of hue 0, 120 and 200 (saturation 0.7 / 0.6,
// lightness 0.5 / 0.65).
const RED_BODY: Rgba = Rgba { r: 217, g: 38, b: 38, a: 255 };
const RED_HEAD: Rgba = Rgba { r: 219, g: 112, b: 112, a: 255 };
const GREEN_BODY: Rgba = Rgba { r: 38, g: 217, b: 38, a: 255 };
const GREEN_HEAD: Rgba = Rgba { r: 112, g: 219, b: 112, a: 255 };
const BLUE_BODY: Rgba = Rgba { r: 38, g: 157, b: 217, a: 255 };
const BLUE_HEAD: Rgba = Rgba { r: 112, g: 184, b: 219, a: 255 };
const CYAN_BODY: Rgba = Rgba { r: 38, g: 217, b: 217, a: 255 };
const CYAN_HEAD: Rgba = Rgba { r: 112, g: 219, b: 219, a: 255 };

// 1. sprite is always 12x16
#[test]
fn test_sprite_dimensions() {
    let img = generate_sprite(CYAN_BODY, CYAN_HEAD, AgentState::Idle, 0, 0);
    assert_eq!(img.width(), SPRITE_WIDTH);
    assert_eq!(img.height(), SPRITE_HEIGHT);
}

// 2. different hues produce different colors at body center pixel
#[test]
fn test_different_hues_produce_different_colors() {
    // body center: x=6, y=11 (body runs y=5..16)
    let img_red = generate_sprite(RED_BODY, RED_HEAD, AgentState::Idle, 0, 0);
    let img_green = generate_sprite(GREEN_BODY, GREEN_HEAD, AgentState::Idle, 0, 0);
    let red_pixel = img_red.get_pixel(6, 11);
    let green_pixel = img_green.get_pixel(6, 11);
    assert_ne!(red_pixel, green_pixel, "hue 0 and hue 120 should produce different body colors");
}

// 3. walking frames differ (frame 0 vs frame 1 have pixel differences)
#[test]
fn test_walking_frames_differ() {
    let frame0 = generate_sprite(BLUE_BODY, BLUE_HEAD, AgentState::Walking, 0, 0);
    let frame1 = generate_sprite(BLUE_BODY, BLUE_HEAD, AgentState::Walking, 1, 0);
    let mut differs = false;
    for y in 0..SPRITE_HEIGHT {
        for x in 0..SPRITE_WIDTH {
            if frame0.get_pixel(x, y) != frame1.get_pixel(x, y) {
                differs = true;
            }
        }
    }
    assert!(differs, "frame 0 and frame 1 should differ due to vertical bob");
}

// ---- further cases ----

const CLEAR: Rgba = Rgba { r: 0, g: 0, b: 0, a: 0 };
const WHITE: Rgba = Rgba { r: 255, g: 255, b: 255, a: 255 };

#[test]
fn sprite_layout_frame_zero_facing_down() {
    let img = generate_sprite(RED_BODY, RED_HEAD, AgentState::Idle, 0, 0);
    // corners and margins are transparent
    assert_eq!(img.get_pixel(0, 0), CLEAR);
    for y in 0..16 {
        for x in [0, 1, 10, 11] {
            assert_eq!(img.get_pixel(x, y).a, 0);
        }
    }
    // head columns 3..9, rows 1..=4
    for x in 3..9 {
        assert_eq!(img.get_pixel(x, 1), RED_HEAD);
    }
    assert_eq!(img.get_pixel(8, 4), RED_HEAD);
    assert_eq!(img.get_pixel(2, 1), CLEAR);
    // body columns 2..10, rows 5..=15
    for y in 5..16 {
        for x in 2..10 {
            assert_eq!(img.get_pixel(x, y), RED_BODY);
        }
    }
    // eye 2x2 at (6, 3) when facing down, inside the head
    assert_eq!(img.get_pixel(6, 3), WHITE);
    assert_eq!(img.get_pixel(7, 4), WHITE);
    assert_eq!(img.get_pixel(6, 2), RED_HEAD);
}

#[test]
fn sprite_eye_follows_direction() {
    let up = generate_sprite(RED_BODY, RED_HEAD, AgentState::Idle, 0, 1);
    assert_eq!(up.get_pixel(6, 1), WHITE);
    assert_eq!(up.get_pixel(6, 3), RED_HEAD);
    let right = generate_sprite(RED_BODY, RED_HEAD, AgentState::Idle, 0, 2);
    assert_eq!(right.get_pixel(8, 2), WHITE);
    let left = generate_sprite(RED_BODY, RED_HEAD, AgentState::Idle, 0, 3);
    assert_eq!(left.get_pixel(5, 2), WHITE);
    assert_eq!(left.get_pixel(7, 2), RED_HEAD);
}

#[test]
fn sprite_state_marks() {
    let typing = generate_sprite(RED_BODY, RED_HEAD, AgentState::Typing, 0, 0);
    assert_eq!(typing.get_pixel(5, 0), Rgba { r: 255, g: 220, b: 0, a: 255 });
    assert_eq!(typing.get_pixel(6, 0), Rgba { r: 255, g: 220, b: 0, a: 255 });
    assert_eq!(typing.get_pixel(4, 0), CLEAR);
    let reading = generate_sprite(RED_BODY, RED_HEAD, AgentState::Reading, 0, 0);
    for x in 4..8 {
        assert_eq!(reading.get_pixel(x, 0), Rgba { r: 100, g: 180, b: 255, a: 255 });
    }
    assert_eq!(reading.get_pixel(8, 0), CLEAR);
    let waiting = generate_sprite(RED_BODY, RED_HEAD, AgentState::Waiting, 0, 0);
    for x in [3, 5, 7] {
        assert_eq!(waiting.get_pixel(x, 0), WHITE);
    }
    assert_eq!(waiting.get_pixel(4, 0), CLEAR);
}

#[test]
fn walking_frame_one_bobs_up() {
    let img = generate_sprite(RED_BODY, RED_HEAD, AgentState::Walking, 1, 0);
    assert_eq!(img.get_pixel(3, 0), RED_HEAD);
    assert_eq!(img.get_pixel(3, 3), RED_HEAD);
    assert_eq!(img.get_pixel(2, 4), RED_BODY);
    assert_eq!(img.get_pixel(2, 15), RED_BODY);
    assert_eq!(img.get_pixel(6, 2), WHITE);
}
