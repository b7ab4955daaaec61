//! Presence status: a global status plus an optional per-server override,
//! and the tray icon that shows how every linked server is doing.
//!
//! A status is one of `online`, `invisible` or `offline`; an override may
//! also be `inherit`, which falls back to the global status.
use vstd::prelude::*;
use crate::text::str_eq;

verus! {

/// One of the three statuses an override can name.
pub open spec fn is_status(s: Seq<char>) -> bool {
    s == "online"@ || s == "invisible"@ || s == "offline"@
}

/// The status in force for a server: its override when that names a status,
/// otherwise the global status, `online` when the global one is empty.
pub open spec fn spec_effective_status(global: Seq<char>, server_override: Seq<char>) -> Seq<char> {
    if is_status(server_override) {
        server_override
    } else if global.len() == 0 {
        "online"@
    } else {
        global
    }
}

/// Resolves the effective status for a server from the global status and the
/// server's override.
pub fn effective_status(global: &str, server_override: &str) -> (r: String)
    ensures
        r@ == spec_effective_status(global@, server_override@),
{
    if str_eq(server_override, "online") || str_eq(server_override, "invisible") || str_eq(
        server_override,
        "offline",
    ) {
        server_override.to_owned()
    } else if global.is_empty() {
        "online".to_owned()
    } else {
        global.to_owned()
    }
}

/// Visual state of the tray icon, aggregated across every linked server.
#[derive(Debug, Clone, Copy, PartialEq, Eq)]
pub enum IconState {
    Idle,
    InGame,
    Invisible,
    Problem,
    Offline,
}

/// The RGBA colour of each state's dot.
pub open spec fn spec_color(s: IconState) -> Seq<u8> {
    match s {
        IconState::Idle => seq![107u8, 114u8, 128u8, 255u8],
        IconState::InGame => seq![34u8, 197u8, 94u8, 255u8],
        IconState::Invisible => seq![249u8, 115u8, 22u8, 255u8],
        IconState::Problem => seq![239u8, 68u8, 68u8, 255u8],
        IconState::Offline => seq![75u8, 85u8, 99u8, 255u8],
    }
}

impl IconState {
    /// RGBA color of the status dot overlaid on the tray icon: grey, green,
    /// orange, red or dim grey.
    pub fn color(self) -> (c: [u8; 4])
        ensures
            c@ == spec_color(self),
    {
        let c = match self {
            IconState::Idle => [107u8, 114u8, 128u8, 255u8],
            IconState::InGame => [34u8, 197u8, 94u8, 255u8],
            IconState::Invisible => [249u8, 115u8, 22u8, 255u8],
            IconState::Problem => [239u8, 68u8, 68u8, 255u8],
            IconState::Offline => [75u8, 85u8, 99u8, 255u8],
        };
        proof {
            assert(c@ =~= spec_color(self));
        }
        c
    }
}

/// Whether a server with this effective status reports presence.
pub open spec fn reports(eff: Seq<char>) -> bool {
    eff == "online"@ || eff == "invisible"@
}

/// The pairs as text.
pub open spec fn pair_texts(s: Seq<(String, String)>) -> Seq<(Seq<char>, Seq<char>)> {
    s.map_values(|p: (String, String)| (p.0@, p.1@))
}

/// The tray icon's state for these `(effective status, connection status)`
/// pairs: idle with no server; offline when none reports; a problem when a
/// reporting one is disconnected; idle out of game; otherwise in game when
/// one reporting server is online, invisible when none is.
pub open spec fn spec_aggregate(in_game: bool, s: Seq<(Seq<char>, Seq<char>)>) -> IconState {
    if s.len() == 0 {
        IconState::Idle
    } else if !(exists|i: int| 0 <= i < s.len() && #[trigger] reports(s[i].0)) {
        IconState::Offline
    } else if exists|i: int| 0 <= i < s.len() && #[trigger] reports(s[i].0) && s[i].1 == "disconnected"@ {
        IconState::Problem
    } else if !in_game {
        IconState::Idle
    } else if exists|i: int| 0 <= i < s.len() && #[trigger] s[i].0 == "online"@ {
        IconState::InGame
    } else {
        IconState::Invisible
    }
}

/// Aggregates the tray icon state. `servers` is `(effective_status,
/// conn_status)` per linked server, where `conn_status` is the last WS status
/// seen.
pub fn aggregate_icon_state(in_game: bool, servers: &[(String, String)]) -> (r: IconState)
    ensures
        r == spec_aggregate(in_game, pair_texts(servers@)),
{
    let ghost s = pair_texts(servers@);
    if servers.len() == 0 {
        return IconState::Idle;
    }
    let mut any_reporting = false;
    let mut any_problem = false;
    let mut any_online = false;
    let mut i: usize = 0;
    while i < servers.len()
        invariant
            i <= servers@.len(),
            s == pair_texts(servers@),
            any_reporting == exists|k: int| 0 <= k < i && #[trigger] reports(s[k].0),
            any_problem == exists|k: int| 0 <= k < i && #[trigger] reports(s[k].0) && s[k].1 == "disconnected"@,
            any_online == exists|k: int| 0 <= k < i && #[trigger] s[k].0 == "online"@,
        decreases servers@.len() - i,
    {
        let eff = servers[i].0.as_str();
        let conn = servers[i].1.as_str();
        proof {
            assert(s[i as int] == (eff@, conn@));
        }
        let online = str_eq(eff, "online");
        let rep = online || str_eq(eff, "invisible");
        if rep {
            any_reporting = true;
        }
        if rep && str_eq(conn, "disconnected") {
            any_problem = true;
        }
        if online {
            any_online = true;
        }
        proof {
            assert(rep == reports(s[i as int].0));
            if any_reporting && !(exists|k: int| 0 <= k < i && #[trigger] reports(s[k].0)) {
                assert(reports(s[i as int].0));
            }
        }
        i = i + 1;
    }
    if !any_reporting {
        return IconState::Offline;
    }
    if any_problem {
        return IconState::Problem;
    }
    if !in_game {
        return IconState::Idle;
    }
    if any_online {
        IconState::InGame
    } else {
        IconState::Invisible
    }
}

// ---------------------------------------------------------------------------
// The status dot

/// The dot's radius: a quarter of the icon's smaller side, at least one.
pub open spec fn dot_radius(w: int, h: int) -> int {
    let m = if w <= h { w } else { h };
    if m / 4 >= 1 { m / 4 } else { 1 }
}

/// Whether the pixel at column `x`, row `y` is painted: inside the disc
/// centred one radius and one pixel from the bottom-right corner, within the
/// half-open square around it, within the icon, and within its bottom-right
/// quadrant.
pub open spec fn in_dot(x: int, y: int, w: int, h: int) -> bool {
    let r = dot_radius(w, h);
    let cx = w - r - 1;
    let cy = h - r - 1;
    &&& x >= w / 2 && y >= h / 2
    &&& 0 <= x && cx - r <= x && x < cx + r && x < w
    &&& 0 <= y && cy - r <= y && y < cy + r && y < h
    &&& (x - cx) * (x - cx) + (y - cy) * (y - cy) <= r * r
}

/// Whether an RGBA buffer of this length fits a `w` by `h` icon.
pub open spec fn fits(len: int, w: int, h: int) -> bool {
    len == w * h * 4 && w != 0 && h != 0
}

/// Byte `p` of the composited icon.
pub open spec fn painted(base: Seq<u8>, w: int, h: int, color: Seq<u8>, p: int) -> u8 {
    if in_dot((p / 4) % w, (p / 4) / w, w, h) {
        color[p % 4]
    } else {
        base[p]
    }
}

/// Byte `p` once the disc's pixels before row `y`, and those of row `y`
/// before column `x`, are painted.
pub open spec fn painted_upto(base: Seq<u8>, w: int, h: int, color: Seq<u8>, p: int, y: int, x: int) -> u8 {
    let col = (p / 4) % w;
    let row = (p / 4) / w;
    if in_dot(col, row, w, h) && (row < y || (row == y && col < x)) {
        color[p % 4]
    } else {
        base[p]
    }
}

proof fn lemma_pixel_of(p: int, w: int, y: int, x: int)
    requires
        w > 0,
        p >= 0,
        0 <= x < w,
        0 <= y,
    ensures
        (p / 4) % w == x && (p / 4) / w == y <==> (y * w + x) * 4 <= p < (y * w + x) * 4 + 4,
{
    let q = y * w + x;
    if (p / 4) % w == x && (p / 4) / w == y {
        vstd::arithmetic::div_mod::lemma_fundamental_div_mod(p / 4, w);
        vstd::arithmetic::div_mod::lemma_fundamental_div_mod(p, 4);
        assert(p / 4 == w * y + x);
        assert(y * w == w * y) by (nonlinear_arith);
    }
    if q * 4 <= p < q * 4 + 4 {
        vstd::arithmetic::div_mod::lemma_fundamental_div_mod_converse(p, 4, q, p - q * 4);
        vstd::arithmetic::div_mod::lemma_fundamental_div_mod_converse(q, w, y, x);
    }
}

/// Draws a filled status dot in the bottom-right quadrant of an RGBA icon,
/// returning the composited pixels. The base is returned unchanged if its
/// length does not match `width * height * 4`.
pub fn composite_status_dot(base: &[u8], width: u32, height: u32, color: [u8; 4]) -> (r: Vec<u8>)
    ensures
        r@.len() == base@.len(),
        !fits(base@.len() as int, width as int, height as int) ==> r@ == base@,
        fits(base@.len() as int, width as int, height as int) ==> forall|p: int|
            0 <= p < base@.len() ==> r@[p] == painted(base@, width as int, height as int, color@, p),
{
    let mut out = vstd::slice::slice_to_vec(base);
    proof {
        assert((width as u128) * (height as u128) <= 0x1_0000_0000 * 0x1_0000_0000) by (nonlinear_arith)
            requires width <= 0xffff_ffff, height <= 0xffff_ffff;
    }
    if (base.len() as u128) != (width as u128) * (height as u128) * 4 || width == 0 || height == 0 {
        return out;
    }
    let ghost w = width as int;
    let ghost h = height as int;
    let ghost len = base@.len() as int;
    let n = base.len();
    assert(n == len);
    let m: u32 = if width <= height { width } else { height };
    let radius: i64 = if m / 4 >= 1 { (m / 4) as i64 } else { 1 };
    let wi = width as i64;
    let hi = height as i64;
    let cx = wi - radius - 1;
    let cy = hi - radius - 1;
    proof {
        assert(radius <= 0x4000_0000);
        assert(radius * radius <= 0x4000_0000 * 0x4000_0000) by (nonlinear_arith)
            requires 1 <= radius <= 0x4000_0000;
    }
    let r2 = radius * radius;
    let y_lo: i64 = if cy - radius > 0 { cy - radius } else { 0 };
    let y_hi: i64 = if cy + radius < hi { cy + radius } else { hi };
    let x_lo: i64 = if cx - radius > 0 { cx - radius } else { 0 };
    let x_hi: i64 = if cx + radius < wi { cx + radius } else { wi };
    proof {
        assert(radius == dot_radius(w, h));
        assert forall|p: int| 0 <= p < len implies out@[p] == #[trigger] painted_upto(base@, w, h, color@, p, y_lo as int, 0) by {
            let col = (p / 4) % w;
            let row = (p / 4) / w;
            if in_dot(col, row, w, h) {
                assert(row >= y_lo);
            }
        }
    }
    let mut y: i64 = y_lo;
    while y < y_hi
        invariant
            w == width, h == height, len == base@.len(), len <= usize::MAX, w > 0, h > 0, len == w * h * 4,
            wi == w, hi == h,
            radius == dot_radius(w, h), 1 <= radius <= w, radius <= h, radius <= 0x4000_0000,
            cx == w - radius - 1, cy == h - radius - 1, r2 == radius * radius,
            y_lo == (if cy - radius > 0 { cy - radius } else { 0 }),
            y_hi == (if cy + radius < h { cy + radius } else { h }),
            x_lo == (if cx - radius > 0 { cx - radius } else { 0 }),
            x_hi == (if cx + radius < w { cx + radius } else { w }),
            y_lo <= y, y <= y_hi || y == y_lo,
            out@.len() == len,
            forall|p: int| 0 <= p < len ==> out@[p] == #[trigger] painted_upto(base@, w, h, color@, p, y as int, 0),
        decreases y_hi - y,
    {
        let mut x: i64 = x_lo;
        proof {
            assert forall|p: int| 0 <= p < len implies out@[p] == #[trigger] painted_upto(base@, w, h, color@, p, y as int, x as int) by {
                assert(painted_upto(base@, w, h, color@, p, y as int, 0) == out@[p]);
            }
        }
        while x < x_hi
            invariant
                w == width, h == height, len == base@.len(), len <= usize::MAX, w > 0, h > 0, len == w * h * 4,
                wi == w, hi == h,
            wi == w, hi == h,
                radius == dot_radius(w, h), 1 <= radius <= w, radius <= h, radius <= 0x4000_0000,
                cx == w - radius - 1, cy == h - radius - 1, r2 == radius * radius,
                x_lo == (if cx - radius > 0 { cx - radius } else { 0 }),
                x_hi == (if cx + radius < w { cx + radius } else { w }),
                0 <= y < h, cy - radius <= y, y < cy + radius,
                x_lo <= x, x <= x_hi || x == x_lo,
                out@.len() == len,
                forall|p: int| 0 <= p < len ==> out@[p] == #[trigger] painted_upto(base@, w, h, color@, p, y as int, x as int),
            decreases x_hi - x,
        {
            let dx = x - cx;
            let dy = y - cy;
            proof {
                assert(-radius <= dx < radius);
                assert(-radius <= dy < radius);
                assert(dx * dx <= radius * radius) by (nonlinear_arith)
                    requires -radius <= dx < radius, radius >= 1;
                assert(dy * dy <= radius * radius) by (nonlinear_arith)
                    requires -radius <= dy < radius, radius >= 1;
                assert(radius * radius <= 0x4000_0000 * 0x4000_0000) by (nonlinear_arith)
                    requires 1 <= radius <= 0x4000_0000;
                assert(dx * dx >= 0) by (nonlinear_arith);
                assert(dy * dy >= 0) by (nonlinear_arith);
            }
            let ghost q = y * w + x;
            if x >= wi / 2 && y >= hi / 2 && dx * dx + dy * dy <= r2 {
                proof {
                    assert(0 <= x < w);
                    assert(q * 4 + 4 <= len) by (nonlinear_arith)
                        requires q == y * w + x, 0 <= y < h, 0 <= x < w, len == w * h * 4;
                    assert(y * w <= q) by (nonlinear_arith)
                        requires q == y * w + x, 0 <= x;
                    assert(y * w >= 0) by (nonlinear_arith)
                        requires 0 <= y, w > 0;
                    assert(len <= usize::MAX);
                    assert((y as usize) * (width as usize) == y * w);
                }
                let row = (y as usize) * (width as usize);
                let i = (row + x as usize) * 4;
                let ghost before = out@;
                out.set(i, color[0]);
                out.set(i + 1, color[1]);
                out.set(i + 2, color[2]);
                out.set(i + 3, color[3]);
                proof {
                    assert(i == q * 4);
                    assert(in_dot(x as int, y as int, w, h));
                    assert forall|p: int| 0 <= p < len implies out@[p] == #[trigger] painted_upto(base@, w, h, color@, p, y as int, x + 1) by {
                        lemma_pixel_of(p, w, y as int, x as int);
                        assert(painted_upto(base@, w, h, color@, p, y as int, x as int) == before[p]);
                        if q * 4 <= p < q * 4 + 4 {
                            vstd::arithmetic::div_mod::lemma_fundamental_div_mod_converse(p, 4, q, p - q * 4);
                        }
                    }
                }
            } else {
                proof {
                    assert(!in_dot(x as int, y as int, w, h));
                    assert forall|p: int| 0 <= p < len implies out@[p] == #[trigger] painted_upto(base@, w, h, color@, p, y as int, x + 1) by {
                        lemma_pixel_of(p, w, y as int, x as int);
                        assert(painted_upto(base@, w, h, color@, p, y as int, x as int) == out@[p]);
                    }
                }
            }
            x = x + 1;
        }
        proof {
            assert forall|p: int| 0 <= p < len implies out@[p] == #[trigger] painted_upto(base@, w, h, color@, p, y + 1, 0) by {
                assert(painted_upto(base@, w, h, color@, p, y as int, x as int) == out@[p]);
            }
        }
        y = y + 1;
    }
    proof {
        assert forall|p: int| 0 <= p < len implies out@[p] == painted(base@, w, h, color@, p) by {
            assert(painted_upto(base@, w, h, color@, p, y as int, 0) == out@[p]);
        }
    }
    out
}

// ---------------------------------------------------------------------------
// Laws

/// An override that names a status wins over any global status; any other
/// override follows the global one, `online` when that is empty.
pub proof fn law_an_override_wins(global: Seq<char>, over: Seq<char>)
    ensures
        is_status(over) ==> spec_effective_status(global, over) == over,
        !is_status(over) && global.len() > 0 ==> spec_effective_status(global, over) == global,
        !is_status(over) && global.len() == 0 ==> spec_effective_status(global, over) == "online"@,
{
}

/// With a global status that is a status, or none, every server's
/// effective status is one of the three.
pub proof fn law_the_effective_status_is_a_status(global: Seq<char>, over: Seq<char>)
    requires
        is_status(global) || global.len() == 0,
    ensures
        is_status(spec_effective_status(global, over)),
{
}

/// Out of game the tray never shows a game being played; with servers but
/// none reporting it shows offline.
pub proof fn law_the_icon_follows_the_servers(in_game: bool, s: Seq<(Seq<char>, Seq<char>)>)
    ensures
        !in_game ==> spec_aggregate(in_game, s) != IconState::InGame && spec_aggregate(in_game, s) != IconState::Invisible,
        s.len() > 0 && (forall|i: int| 0 <= i < s.len() ==> !reports(#[trigger] s[i].0)) ==> spec_aggregate(in_game, s) == IconState::Offline,
        spec_aggregate(in_game, s) == IconState::Problem ==> exists|i: int| 0 <= i < s.len() && #[trigger] reports(s[i].0) && s[i].1 == "disconnected"@,
{
}

/// The dot changes only its own pixels: every byte of a pixel outside it is
/// the base icon's.
pub proof fn law_outside_the_dot_is_untouched(base: Seq<u8>, w: int, h: int, color: Seq<u8>, p: int)
    requires
        !in_dot((p / 4) % w, (p / 4) / w, w, h),
    ensures
        painted(base, w, h, color, p) == base[p],
{
}

/// What the tray icon says of the linked servers, each given as its
/// effective status and its connection's state: grey with none; offline when
/// none is online or invisible; red as soon as one that is online or
/// invisible lost its connection, in game or not; otherwise grey out of
/// game, and in game green when one is online, orange when all reporting
/// ones are invisible.
pub proof fn law_the_icon_reads_the_servers(in_game: bool, s: Seq<(Seq<char>, Seq<char>)>)
    ensures
        s.len() == 0 ==> spec_aggregate(in_game, s) == IconState::Idle,
        s.len() > 0 && (forall|i: int| 0 <= i < s.len() ==> (#[trigger] s[i]).0 != "online"@ && s[i].0 != "invisible"@)
            ==> spec_aggregate(in_game, s) == IconState::Offline,
        (exists|i: int|
            0 <= i < s.len() && ((#[trigger] s[i]).0 == "online"@ || s[i].0 == "invisible"@) && s[i].1 == "disconnected"@)
            ==> spec_aggregate(in_game, s) == IconState::Problem,
        ({
            let reporting = exists|i: int| 0 <= i < s.len() && ((#[trigger] s[i]).0 == "online"@ || s[i].0 == "invisible"@);
            let all_connected = forall|i: int|
                0 <= i < s.len() && ((#[trigger] s[i]).0 == "online"@ || s[i].0 == "invisible"@) ==> s[i].1 != "disconnected"@;
            let one_online = exists|i: int| 0 <= i < s.len() && (#[trigger] s[i]).0 == "online"@;
            reporting && all_connected ==> (if !in_game {
                spec_aggregate(in_game, s) == IconState::Idle
            } else if one_online {
                spec_aggregate(in_game, s) == IconState::InGame
            } else {
                spec_aggregate(in_game, s) == IconState::Invisible
            })
        }),
{
    if exists|i: int| 0 <= i < s.len() && ((#[trigger] s[i]).0 == "online"@ || s[i].0 == "invisible"@) {
        let i = choose|i: int| 0 <= i < s.len() && ((#[trigger] s[i]).0 == "online"@ || s[i].0 == "invisible"@);
        assert(reports(s[i].0));
    }
    if exists|i: int|
        0 <= i < s.len() && ((#[trigger] s[i]).0 == "online"@ || s[i].0 == "invisible"@) && s[i].1 == "disconnected"@ {
        let i = choose|i: int|
            0 <= i < s.len() && ((#[trigger] s[i]).0 == "online"@ || s[i].0 == "invisible"@) && s[i].1 == "disconnected"@;
        assert(reports(s[i].0) && s[i].1 == "disconnected"@);
    }
    if exists|i: int| 0 <= i < s.len() && #[trigger] reports(s[i].0) && s[i].1 == "disconnected"@ {
        let i = choose|i: int| 0 <= i < s.len() && #[trigger] reports(s[i].0) && s[i].1 == "disconnected"@;
        assert(s[i].0 == "online"@ || s[i].0 == "invisible"@);
    }
    if exists|i: int| 0 <= i < s.len() && #[trigger] reports(s[i].0) {
        let i = choose|i: int| 0 <= i < s.len() && #[trigger] reports(s[i].0);
        assert(s[i].0 == "online"@ || s[i].0 == "invisible"@);
    }
}

} // verus!
