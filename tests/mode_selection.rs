use gang_ai::mode::{
    bytes_less, engage_territory, select_mode, top_rival, GangMode, Rival, ENGAGE_THRESHOLD,
    GROWTH_THRESHOLD, PROBABILITY_ONE,
};

fn rival(name: &str, power: u64) -> Rival {
    Rival { name: name.to_string(), power }
}

#[test]
fn small_gang_always_grows() {
    let us = "Us".to_string();
    let rivals = vec![rival("Tetrads", 900), rival("Syndicate", 50)];
    for members in 0..GROWTH_THRESHOLD {
        assert_eq!(select_mode(members, &us, &rivals), GangMode::Respect);
    }
}

#[test]
fn powerless_rivals_mean_money() {
    let us = "Us".to_string();
    let rivals = vec![rival("Tetrads", 0), rival("Syndicate", 0)];
    assert_eq!(select_mode(12, &us, &rivals), GangMode::Money);
    assert_eq!(select_mode(30, &us, &rivals), GangMode::Money);
}

#[test]
fn no_rivals_mean_money() {
    let us = "Us".to_string();
    assert_eq!(select_mode(12, &us, &Vec::new()), GangMode::Money);
}

#[test]
fn own_power_does_not_count() {
    let us = "Us".to_string();
    let rivals = vec![rival("Us", 500), rival("Tetrads", 0)];
    assert_eq!(top_rival(&us, &rivals), None);
    assert_eq!(select_mode(12, &us, &rivals), GangMode::Money);
}

#[test]
fn strongest_rival_is_contested() {
    let us = "Us".to_string();
    let rivals = vec![rival("Syndicate", 50), rival("Us", 1000), rival("Tetrads", 900), rival("Dark Army", 0)];
    assert_eq!(top_rival(&us, &rivals), Some(2));
    assert_eq!(select_mode(12, &us, &rivals), GangMode::Territory { rival: 2 });
}

#[test]
fn equal_power_goes_to_first_name() {
    let us = "Us".to_string();
    let rivals = vec![rival("Zeta", 70), rival("Alpha", 70), rival("Beta", 70), rival("Omega", 10)];
    assert_eq!(top_rival(&us, &rivals), Some(1));
    let rivals = vec![rival("Ab", 70), rival("A", 70)];
    assert_eq!(top_rival(&us, &rivals), Some(1));
}

#[test]
fn byte_order() {
    assert!(bytes_less(b"A", b"B"));
    assert!(bytes_less(b"A", b"AB"));
    assert!(!bytes_less(b"AB", b"A"));
    assert!(!bytes_less(b"same", b"same"));
    assert!(bytes_less(b"", b"x"));
    assert!(!bytes_less(b"", b""));
}

#[test]
fn engagement_boundary_is_exclusive() {
    assert!(!engage_territory(640_000_000));
    assert!(!engage_territory(650_000_000));
    assert!(engage_territory(660_000_000));
    assert!(engage_territory(ENGAGE_THRESHOLD + 1));
    assert!(engage_territory(PROBABILITY_ONE));
    assert!(!engage_territory(0));
}
