use idv_asas::positions::{point_limit, MapPosition, PositionError};

const NOTES: &str = "# 选点坐标\n## 军工厂\n地图尺寸为 $1920 \\times 1080$ 像素\n### 角色图标尺寸 $120 \\times 120$ 像素\n1 号选点中心：$(100, 200)$\n2 号选点中心：$( 300 ,400 )$\n3 号选点中心：坐标缺失\n12 号选点中心：$(50,60)$\n";

#[test]
fn notes_give_size_icon_and_points() {
    let p = MapPosition::from_text(NOTES, "arms-factory").ok().unwrap();
    assert_eq!(p.zh, "军工厂");
    assert_eq!((p.map_width, p.map_height), (1920, 1080));
    assert_eq!(p.icon_size, 120);
    assert_eq!(p.points, vec![(1, 100, 200), (2, 300, 400), (12, 50, 60)]);
}

#[test]
fn max_point_and_centres() {
    let p = MapPosition::from_text(NOTES, "arms-factory").ok().unwrap();
    assert_eq!(p.max_point(), 12);
    assert_eq!(p.point_center(2), Some((300, 400)));
    assert_eq!(p.point_center(3), None);
    for (n, _, _) in &p.points {
        assert!(*n <= p.max_point());
    }
}

#[test]
fn defaults_for_name_and_icon() {
    let text = "宽高为 700×500 像素\n1 号选点中心 $(1, 2)$";
    let p = MapPosition::from_text(text, "lakeside-village").ok().unwrap();
    assert_eq!(p.zh, "lakeside-village");
    assert_eq!((p.map_width, p.map_height), (700, 500));
    assert_eq!(p.icon_size, 100);

    let wide = "宽高为 1400×600 像素\n1 号选点中心 $(1, 2)$";
    assert_eq!(MapPosition::from_text(wide, "m").ok().unwrap().icon_size, 200);
    // a size line needs a times sign, `×` or `\times`; a bare `x` does not make one
    let plain = "宽高为 1400x600 像素\n1 号选点中心 $(1, 2)$";
    assert_eq!(MapPosition::from_text(plain, "m").ok().unwrap().map_width, 0);

    let none = "1 号选点中心 $(1, 2)$";
    let p = MapPosition::from_text(none, "m").ok().unwrap();
    assert_eq!((p.map_width, p.map_height, p.icon_size), (0, 0, 100));
}

#[test]
fn notes_without_points_are_refused() {
    assert!(matches!(MapPosition::from_text("## 空地图\n", "x"), Err(PositionError::NoPoints)));
}

#[test]
fn empty_positions_have_no_highest_point() {
    let p = MapPosition { zh: String::new(), map_width: 0, map_height: 0, points: vec![], icon_size: 0 };
    assert_eq!(p.max_point(), 0);
}

#[test]
fn icon_lines_and_size_lines_stay_apart() {
    let text = "地图尺寸为 800×600 像素\n角色图标 90×90 像素，地图为 10×10 像素\n1 号选点中心 $(1, 2)$";
    let p = MapPosition::from_text(text, "m").ok().unwrap();
    assert_eq!((p.map_width, p.map_height), (800, 600));
    assert_eq!(p.icon_size, 90);
}

#[test]
fn point_limit_defaults_to_twelve() {
    let p = MapPosition::from_text(NOTES, "arms-factory").ok().unwrap();
    assert_eq!(point_limit(Some(&p)), 12);
    let small = MapPosition::from_text("3 号选点中心 $(1, 2)$", "m").ok().unwrap();
    assert_eq!(point_limit(Some(&small)), 3);
    assert_eq!(point_limit(None), 12);
}
