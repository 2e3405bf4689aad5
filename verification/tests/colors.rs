use abcom_ui::colors::{peer_color, peer_color_for, placeholder_color, Rgb};

fn dark() -> Vec<Rgb> {
    vec![
        Rgb { r: 128, g: 195, b: 255 },
        Rgb { r: 255, g: 153, b: 253 },
        Rgb { r: 102, g: 255, b: 212 },
        Rgb { r: 255, g: 128, b: 164 },
        Rgb { r: 255, g: 163, b: 102 },
        Rgb { r: 51, g: 252, b: 255 },
        Rgb { r: 158, g: 153, b: 255 },
        Rgb { r: 197, g: 255, b: 153 },
    ]
}

fn light() -> Vec<Rgb> {
    vec![
        Rgb { r: 21, g: 94, b: 156 },
        Rgb { r: 158, g: 30, b: 148 },
        Rgb { r: 12, g: 122, b: 96 },
        Rgb { r: 163, g: 30, b: 66 },
        Rgb { r: 158, g: 82, b: 15 },
        Rgb { r: 12, g: 116, b: 128 },
        Rgb { r: 76, g: 62, b: 178 },
        Rgb { r: 86, g: 118, b: 24 },
    ]
}

#[test]
fn peer_colors_come_from_the_palettes_and_match_across_themes() {
    for name in ["alice", "bob", "carol", "dave", "", "é"] {
        let d = peer_color_for(name, true);
        let l = peer_color_for(name, false);
        let k = dark().iter().position(|c| *c == d).unwrap();
        assert_eq!(light()[k], l);
        assert_eq!(peer_color(name), d);
    }
}

#[test]
fn same_name_same_color() {
    assert_eq!(peer_color("alice"), peer_color("alice"));
    assert_eq!(placeholder_color("bob"), placeholder_color("bob"));
}

#[test]
fn avatar_colors_come_from_their_palette() {
    let palette = [
        Rgb { r: 88, g: 101, b: 242 },
        Rgb { r: 87, g: 242, b: 135 },
        Rgb { r: 254, g: 231, b: 92 },
        Rgb { r: 235, g: 69, b: 158 },
        Rgb { r: 255, g: 138, b: 76 },
        Rgb { r: 116, g: 200, b: 255 },
    ];
    for name in ["alice", "bob", "x"] {
        assert!(palette.contains(&placeholder_color(name)));
    }
}
