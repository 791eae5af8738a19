use auto_claw::relay::has_image_family;
use auto_claw::relay::{
    close_notices, icon_path, image_path, level_file_name, level_path, new_client_message,
    route_binary, routable, CloseNotice, RelayRoute,
};

#[test]
fn image_paths_by_family_and_frame() {
    assert_eq!(image_path(257), "./res/img/static/grass_1.png");
    assert_eq!(image_path(2 * 256 + 12), "./res/img/static/wall_12.png");
    assert_eq!(image_path(16 * 256), "./res/img/static/player_0.png");
    assert_eq!(image_path(32 * 256 + 255), "./res/img/static/monster_255.png");
    assert_eq!(image_path(128 * 256 + 100), "./res/img/static/particle_100.png");
}

#[test]
fn file_paths() {
    assert_eq!(icon_path("favicon.ico"), "./res/img/static/favicon.ico");
    assert_eq!(level_path("a.lvl"), "./res/levels/a.lvl");
    assert_eq!(level_file_name("test_b0"), "./res/levels/test_b0.lvl");
}

#[test]
fn new_client_learns_ids() {
    assert_eq!(new_client_message(1), vec![0, 0]);
    assert_eq!(new_client_message(4), vec![0, 3, 2, 1, 0]);
}

#[test]
fn close_notices_shift_later_clients() {
    assert_eq!(
        close_notices(4, 1),
        vec![
            CloseNotice { client: 0, message: vec![255, 1, 0] },
            CloseNotice { client: 2, message: vec![255, 1, 1] },
            CloseNotice { client: 3, message: vec![255, 1, 2] },
        ]
    );
    assert_eq!(close_notices(1, 0), vec![]);
}

#[test]
fn routes() {
    assert_eq!(route_binary(&vec![0]), RelayRoute::NewClient);
    assert_eq!(route_binary(&vec![1, 5, 2, 9, 9]), RelayRoute::Forward(2));
    assert_eq!(route_binary(&vec![4, 0, 7]), RelayRoute::Forward(7));
    assert!(routable(&vec![0]));
    assert!(!routable(&vec![]));
    assert!(!routable(&vec![3, 1]));
}

#[test]
fn known_image_families() {
    assert!(has_image_family(257));
    assert!(has_image_family(128 * 256));
    assert!(!has_image_family(3 * 256));
    assert!(!has_image_family(0));
}
