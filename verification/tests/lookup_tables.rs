use zxcalc::gcd::euclid;
use zxcalc::scv::scv_contains;
use zxcalc::scv::scv_create;
use zxcalc::ssv::ssv_contains;
use zxcalc::ssv::ssv_create;
use zxcalc::ssv::ssv_strhash;

#[test]
fn euclid_reduces_to_common_divisor() {
    assert_eq!(euclid(12, 18), 6);
    assert_eq!(euclid(18, 12), 6);
    assert_eq!(euclid(35, 64), 1);
    assert_eq!(euclid(0, 9), 9);
    assert_eq!(euclid(9, 0), 9);
}

#[test]
fn operator_table_membership() {
    let ops = scv_create("+-*/:=");
    assert!(scv_contains(&ops, '+'));
    assert!(scv_contains(&ops, '-'));
    assert!(scv_contains(&ops, '*'));
    assert!(scv_contains(&ops, '/'));
    assert!(scv_contains(&ops, ':'));
    assert!(scv_contains(&ops, '='));
    assert!(!scv_contains(&ops, 'x'));
    assert!(!scv_contains(&ops, '%'));
}

#[test]
fn empty_operator_table_holds_nothing() {
    let ops = scv_create("");
    assert!(!scv_contains(&ops, '+'));
}

#[test]
fn command_table_membership() {
    let cmds = ssv_create(&vec![
        "exit".to_string(),
        "help".to_string(),
        "list-loaded-plugins".to_string(),
        "quit".to_string(),
    ]);
    assert!(ssv_contains(&cmds, "exit"));
    assert!(ssv_contains(&cmds, "help"));
    assert!(ssv_contains(&cmds, "list-loaded-plugins"));
    assert!(ssv_contains(&cmds, "quit"));
    assert!(!ssv_contains(&cmds, "set-scale"));
    assert!(!ssv_contains(&cmds, ""));
}

#[test]
fn string_hash_is_deterministic() {
    assert_eq!(ssv_strhash("exit"), ssv_strhash("exit"));
    assert_ne!(ssv_strhash("exit"), ssv_strhash("quit"));
    assert_ne!(ssv_strhash("a"), ssv_strhash("b"));
}
