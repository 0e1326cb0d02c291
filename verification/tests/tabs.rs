use std::collections::HashMap;

use sfw_tools::tabs::{detab, tab_pos_to_space, TabConf};

#[test]
fn test_tab_pos_to_space_constant() {
    let conf = TabConf::TabConstant(2);
    assert_eq!(tab_pos_to_space(&conf, 0), 2);
    assert_eq!(tab_pos_to_space(&conf, 17), 2);
}

#[test]
fn test_tab_pos_to_space_map() {
    let mut tmap = HashMap::new();
    tmap.insert(0usize, 4usize);
    tmap.insert(1usize, 2usize);
    let conf = TabConf::TabMap(8, tmap);
    assert_eq!(tab_pos_to_space(&conf, 0), 4);
    assert_eq!(tab_pos_to_space(&conf, 1), 2);
    assert_eq!(tab_pos_to_space(&conf, 5), 8);
}

#[test]
fn test_detab_constant_width() {
    let conf = TabConf::TabConstant(2);
    let out = detab(&conf, &b"a\tb\tc".to_vec());
    assert_eq!(out, b"a  b  c".to_vec());
}

#[test]
fn test_detab_resets_position_on_newline() {
    let mut tmap = HashMap::new();
    tmap.insert(0usize, 4usize);
    let conf = TabConf::TabMap(1, tmap);
    // First tab of each line is 4 wide, later tabs 1 wide.
    let out = detab(&conf, &b"\t\tx\n\ty".to_vec());
    assert_eq!(out, b"     x\n    y".to_vec());
}

#[test]
fn test_detab_leaves_plain_text_alone() {
    let conf = TabConf::TabConstant(8);
    let out = detab(&conf, &b"no tabs here\n".to_vec());
    assert_eq!(out, b"no tabs here\n".to_vec());
}
