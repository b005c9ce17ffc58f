//! The radar sweep: shape, board coverage and restartability.

use serenity::defs::Config;
use serenity::radar::{Radar, RadarMeta};
use serenity::position::Pos;

fn config() -> Config {
    Config {
        bots: 3,
        field_radius: 14,
        moves_allowed: 2,
        start_hp: 10,
        radar: 2,
        cannon: 1,
        asteroids: 4,
    }
}

fn hex_dist(a: Pos, b: Pos) -> i16 {
    let dx = (a.x - b.x).abs();
    let dy = (a.y - b.y).abs();
    let dz = ((a.x + a.y) - (b.x + b.y)).abs();
    dx.max(dy).max(dz)
}

#[test]
fn sweep_starts_at_the_top_left() {
    let mut radar = Radar::new();
    let positions = radar.get_radar_positions(&config());
    assert!(positions.len() > 1);
    assert_eq!(positions[0], Pos::new(0, -12));
    assert_eq!(positions[1], Pos::new(4, -12));
}

#[test]
fn sweep_is_cached_per_configuration() {
    let mut radar = Radar::new();
    let first = radar.get_radar_positions(&config());
    let again = radar.get_radar_positions(&config());
    assert_eq!(first, again);
}

#[test]
fn sweep_disks_cover_the_board_interior() {
    // the shrinking row bounds leave a handful of boundary-ring hexes
    // unswept, so the coverage guarantee is for the interior
    let mut radar = Radar::new();
    let cfg = config();
    let positions = radar.get_radar_positions(&cfg);
    let r = cfg.field_radius;
    let origin = Pos::new(0, 0);
    for x in -r..=r {
        for y in -r..=r {
            let hex = Pos::new(x, y);
            if hex_dist(hex, origin) <= r - 1 {
                let covered = positions.iter().any(|c| hex_dist(*c, hex) <= cfg.radar);
                assert!(covered, "hex ({}, {}) is not covered by the sweep", x, y);
            }
        }
    }
}

#[test]
fn meta_defaults_describe_the_usual_board() {
    let m = RadarMeta::with_defaults();
    let n = RadarMeta::new(14, 2);
    // both describe the same sweep, so both start the same sequence
    let mut radar = Radar::new();
    radar.meta = m;
    let mut radar2 = Radar::new();
    radar2.meta = n;
    let a = radar.get_radar_positions(&config());
    let b = radar2.get_radar_positions(&config());
    assert_eq!(a, b);
}
