use kfire_client::status::{aggregate_icon_state, composite_status_dot, effective_status, IconState};

#[test]
fn effective_status_resolves_override_and_global() {
    assert_eq!(effective_status("online", "inherit"), "online");
    assert_eq!(effective_status("invisible", "inherit"), "invisible");
    assert_eq!(effective_status("online", "offline"), "offline");
    assert_eq!(effective_status("offline", "online"), "online");
    assert_eq!(effective_status("", "inherit"), "online");
    assert_eq!(effective_status("online", "garbage"), "online");
}

fn s(eff: &str, conn: &str) -> (String, String) {
    (eff.to_string(), conn.to_string())
}

#[test]
fn aggregate_icon_state_cases() {
    assert_eq!(aggregate_icon_state(false, &[]), IconState::Idle);
    assert_eq!(aggregate_icon_state(true, &[s("offline", "logged_out")]), IconState::Offline);
    assert_eq!(aggregate_icon_state(true, &[s("online", "connected")]), IconState::InGame);
    assert_eq!(aggregate_icon_state(true, &[s("invisible", "connected")]), IconState::Invisible);
    assert_eq!(aggregate_icon_state(true, &[s("online", "disconnected")]), IconState::Problem);
    assert_eq!(aggregate_icon_state(false, &[s("online", "connected")]), IconState::Idle);
    assert_eq!(
        aggregate_icon_state(true, &[s("invisible", "connected"), s("online", "connected")]),
        IconState::InGame
    );
}

#[test]
fn composite_status_dot_draws_and_preserves() {
    let w = 8;
    let h = 8;
    let base = vec![10u8; (w * h * 4) as usize];
    let out = composite_status_dot(&base, w, h, [1, 2, 3, 255]);
    let br = (((h - 2) * w + (w - 2)) * 4) as usize;
    assert_eq!(&out[br..br + 4], &[1, 2, 3, 255]);
    assert_eq!(&out[0..4], &[10, 10, 10, 10]);
}

#[test]
fn composite_status_dot_rejects_bad_size() {
    let base = vec![0u8; 10];
    assert_eq!(composite_status_dot(&base, 8, 8, [1, 2, 3, 4]), base);
}

#[test]
fn each_state_has_its_own_colour() {
    assert_eq!(IconState::Idle.color(), [107, 114, 128, 255]);
    assert_eq!(IconState::InGame.color(), [34, 197, 94, 255]);
    assert_eq!(IconState::Invisible.color(), [249, 115, 22, 255]);
    assert_eq!(IconState::Problem.color(), [239, 68, 68, 255]);
    assert_eq!(IconState::Offline.color(), [75, 85, 99, 255]);
}

#[test]
fn a_zero_sized_icon_is_returned_unchanged() {
    let base: Vec<u8> = Vec::new();
    assert_eq!(composite_status_dot(&base, 0, 0, [1, 2, 3, 4]), base);
}

#[test]
fn the_dot_of_an_eight_pixel_icon_covers_exactly_its_disc() {
    // radius 2, centre (5, 5): rows and columns 3 to 6.
    let w = 8u32;
    let base = vec![0u8; 8 * 8 * 4];
    let out = composite_status_dot(&base, w, w, [9, 9, 9, 9]);
    let mut painted = Vec::new();
    for y in 0..8usize {
        for x in 0..8usize {
            if out[(y * 8 + x) * 4] == 9 {
                painted.push((x, y));
            }
        }
    }
    let mut expected = Vec::new();
    for y in 4..7i64 {
        for x in 4..7i64 {
            if (x - 5) * (x - 5) + (y - 5) * (y - 5) <= 4 {
                expected.push((x as usize, y as usize));
            }
        }
    }
    assert_eq!(painted, expected);
}

#[test]
fn the_dot_stays_in_the_bottom_right_quadrant() {
    let base = vec![10u8; 8 * 8 * 4];
    let color = [1, 2, 3, 255];
    let r = composite_status_dot(&base, 8, 8, color);
    assert_eq!(r.len(), 256);
    let px = |x: usize, y: usize| r[(y * 8 + x) * 4..(y * 8 + x) * 4 + 4].to_vec();
    assert_eq!(px(6, 6), vec![1, 2, 3, 255]);
    for y in 0..8 {
        for x in 0..8 {
            if x < 4 || y < 4 {
                assert_eq!(px(x, y), vec![10, 10, 10, 10], "pixel ({x},{y})");
            }
        }
    }
}
