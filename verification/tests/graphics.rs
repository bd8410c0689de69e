use std::io::Cursor;

use ganja_tui::graphics::{
    columns_for, encode_base64, id_color, is_averageable, is_oversized, load, placeholder, Emitter,
};
use ganja_tui::style::Color;

/// A 6×3 lossless WebP.
const WEBP: [u8; 38] = [
    82, 73, 70, 70, 30, 0, 0, 0, 87, 69, 66, 80, 86, 80, 56, 76, 17, 0, 0, 0, 47, 5, 128, 0, 0, 7,
    80, 178, 234, 151, 162, 255, 129, 136, 232, 127, 0, 0,
];

/// An image file of one colour.
fn encoded(width: u32, height: u32, name: &str) -> Vec<u8> {
    let format = match name {
        "a.png" => image::ImageFormat::Png,
        "a.jpg" => image::ImageFormat::Jpeg,
        "a.gif" => image::ImageFormat::Gif,
        _ => return WEBP.to_vec(),
    };
    let source = image::RgbImage::from_pixel(width, height, image::Rgb([250, 100, 20]));
    let mut bytes = Cursor::new(Vec::new());
    image::DynamicImage::ImageRgb8(source)
        .write_to(&mut bytes, format)
        .expect("the fixture encodes");
    bytes.into_inner()
}

#[test]
fn graphics_a_small_transmission_is_one_final_chunk() {
    let wire = Emitter::direct().transmit(7, b"png-bytes");

    assert_eq!(wire, "\x1b_Ga=t,f=100,t=d,i=7,q=2,m=0;cG5nLWJ5dGVz\x1b\\");
}

#[test]
fn graphics_a_large_transmission_chunks_at_the_icat_size() {
    let wire = Emitter::direct().transmit(1, &[0u8; 4000]);

    let commands: Vec<&str> = wire.split("\x1b\\").filter(|s| !s.is_empty()).collect();
    assert_eq!(commands.len(), 2, "5336 base64 chars split once");
    assert!(commands[0].starts_with("\x1b_Ga=t,f=100,t=d,i=1,q=2,m=1;"));
    assert!(commands[1].starts_with("\x1b_Gm=0;"));
}

#[test]
fn graphics_virtual_placement_and_deletion_speak_the_documented_keys() {
    let emitter = Emitter::direct();

    assert_eq!(
        emitter.virtual_placement(3, 10, 5),
        "\x1b_Ga=p,U=1,i=3,c=10,r=5,q=2\x1b\\"
    );
    assert_eq!(emitter.delete_all(), "\x1b_Ga=d,d=a,q=2\x1b\\");
}

#[test]
fn graphics_placeholders_carry_kittys_own_diacritics_and_the_id_rides_the_color() {
    assert_eq!(placeholder(0, 0), "\u{10EEEE}\u{0305}\u{0305}");
    assert_eq!(placeholder(1, 2), "\u{10EEEE}\u{030D}\u{030E}");
    assert_eq!(id_color(0x0001_0203), Color::Rgb(1, 2, 3));
}

#[test]
fn graphics_tmux_wraps_the_apc_in_a_passthrough_envelope() {
    let emitter = Emitter { tmux: true };

    assert_eq!(
        emitter.delete_all(),
        "\x1bPtmux;\x1b\x1b_Ga=d,d=a,q=2\x1b\x1b\\\x1b\\"
    );
}

#[test]
fn graphics_every_attachment_image_format_loads_and_garbage_does_not() {
    for name in ["a.png", "a.jpg", "a.gif", "a.webp"] {
        let preview = load(&encoded(6, 3, name)).expect("the four formats all decode");
        assert_eq!((preview.width, preview.height), (6, 3), "{name} keeps its box");
        assert!(
            preview.png.starts_with(&[0x89, b'P', b'N', b'G']),
            "{name} re-encodes as PNG"
        );
    }

    assert_eq!(load(b"not an image at all"), None);
    assert_eq!(load(b""), None);
}

#[test]
fn graphics_the_cell_box_keeps_aspect_under_tall_cells() {
    assert_eq!(columns_for(100, 100, 5), 10);
    assert_eq!(columns_for(200, 100, 5), 20);
    assert_eq!(columns_for(100, 0, 5), 1000);
}

#[test]
fn graphics_tests_a_small_transmission_is_one_final_chunk() {
    let wire = Emitter::direct().transmit(7, b"png-bytes");

    assert_eq!(wire, "\x1b_Ga=t,f=100,t=d,i=7,q=2,m=0;cG5nLWJ5dGVz\x1b\\");
}

#[test]
fn graphics_tests_a_large_transmission_chunks_at_the_icat_size() {
    let wire = Emitter::direct().transmit(1, &[0u8; 4000]);

    let commands: Vec<&str> = wire.split("\x1b\\").filter(|s| !s.is_empty()).collect();
    assert_eq!(commands.len(), 2, "5336 base64 chars split once");
    assert!(commands[0].starts_with("\x1b_Ga=t,f=100,t=d,i=1,q=2,m=1;"));
    assert!(commands[1].starts_with("\x1b_Gm=0;"));
}

#[test]
fn graphics_tests_virtual_placement_and_deletion_speak_the_documented_keys() {
    let emitter = Emitter::direct();

    assert_eq!(
        emitter.virtual_placement(3, 10, 5),
        "\x1b_Ga=p,U=1,i=3,c=10,r=5,q=2\x1b\\"
    );
    assert_eq!(emitter.delete_all(), "\x1b_Ga=d,d=a,q=2\x1b\\");
}

#[test]
fn graphics_tests_placeholders_carry_kittys_own_diacritics_and_the_id_rides_the_color() {
    assert_eq!(placeholder(0, 0), "\u{10EEEE}\u{0305}\u{0305}");
    assert_eq!(placeholder(1, 2), "\u{10EEEE}\u{030D}\u{030E}");
    assert_eq!(id_color(0x0001_0203), Color::Rgb(1, 2, 3));
}

#[test]
fn graphics_tests_tmux_wraps_the_apc_in_a_passthrough_envelope() {
    let emitter = Emitter { tmux: true };

    assert_eq!(
        emitter.delete_all(),
        "\x1bPtmux;\x1b\x1b_Ga=d,d=a,q=2\x1b\x1b\\\x1b\\"
    );
}

#[test]
fn graphics_tests_every_attachment_image_format_loads_and_garbage_does_not() {
    for name in ["a.png", "a.jpg", "a.gif", "a.webp"] {
        let preview = load(&encoded(6, 3, name)).expect("the four formats all decode");
        assert_eq!((preview.width, preview.height), (6, 3), "{name} keeps its box");
        assert!(
            preview.png.starts_with(&[0x89, b'P', b'N', b'G']),
            "{name} re-encodes as PNG"
        );
    }

    assert_eq!(load(b"not an image at all"), None);
    assert_eq!(load(b""), None);
}

#[test]
fn graphics_tests_the_cell_box_keeps_aspect_under_tall_cells() {
    assert_eq!(columns_for(100, 100, 5), 10);
    assert_eq!(columns_for(200, 100, 5), 20);
    assert_eq!(columns_for(100, 0, 5), 1000);
}

#[test]
fn a_terminal_is_reached_only_where_it_draws() {
    assert_eq!(Emitter::detect(false, true), None);
    assert_eq!(Emitter::detect(true, false), Some(Emitter::direct()));
    assert_eq!(Emitter::detect(true, true), Some(Emitter { tmux: true }));
}

#[test]
fn base64_pads_to_groups_of_four() {
    let text = |bytes: &[u8]| encode_base64(bytes).into_iter().collect::<String>();
    assert_eq!(text(b""), "");
    assert_eq!(text(b"f"), "Zg==");
    assert_eq!(text(b"fo"), "Zm8=");
    assert_eq!(text(b"foo"), "Zm9v");
    assert_eq!(text(&[0xfb, 0xff]), "+/8=");
}

#[test]
fn an_image_that_is_too_large_is_shrunk_and_a_small_one_is_kept() {
    assert!(!is_oversized(512, 512));
    assert!(is_oversized(513, 1));
    assert!(is_oversized(1, 513));

    let large = load(&encoded(1024, 256, "a.png")).expect("a large image loads");
    assert_eq!((large.width, large.height), (512, 128));
    let edge = load(&encoded(512, 4, "a.png")).expect("an image at the bound loads");
    assert_eq!((edge.width, edge.height), (512, 4));

    let again = load(&large.png).expect("what is shown is an image");
    assert_eq!((again.width, again.height), (512, 128));
}

#[test]
fn a_wide_image_never_takes_more_columns_than_there_are() {
    assert_eq!(columns_for(u32::MAX, 1, u16::MAX), u16::MAX);
    assert_eq!(columns_for(1, 100, 5), 1);
}

#[test]
fn a_transmission_under_tmux_wraps_every_chunk() {
    let wire = Emitter { tmux: true }.transmit(1, &[0u8; 4000]);

    assert_eq!(wire.matches("\x1bPtmux;").count(), 2);
}

#[test]
fn an_image_is_averaged_down_while_its_cells_can_be_summed() {
    // Eight-bit grey, and sixteen-bit grey.
    let (flat, deep) = ((8, 1), (16, 1));
    let averages =
        |width, height, (bits, channels)| is_averageable(width, height, bits, channels);
    assert!(averages(513, 1, deep));
    assert!(averages(20_000, 20_000, deep));
    assert!(averages(300_000, 120, flat));
    assert!(!averages(300_000, 120, deep));
    assert!(averages(40_000_000, 1, flat));
    assert!(!averages(40_000_000, 1, deep));
    assert!(averages(1, 33_552_383, deep));
    assert!(!averages(1, 33_552_384, deep));
    assert!(!averages(u32::MAX, u32::MAX, flat));
    // Four channels of eight and of sixteen bits.
    assert!(averages(300_000, 120, (32, 4)));
    assert!(!averages(300_000, 120, (64, 4)));
}

#[test]
fn a_long_thin_image_is_shown() {
    let preview = load(&encoded(1, 5_000, "a.png")).expect("the fixture loads");
    assert_eq!((preview.width, preview.height), (1, 512));
}

#[test]
fn a_very_elongated_image_is_shown() {
    let preview = load(&encoded(300_000, 120, "a.png")).expect("the fixture loads");
    assert_eq!((preview.width, preview.height), (512, 1));
    let shown = image::load_from_memory(&preview.png).expect("the preview decodes").to_rgba8();
    assert_eq!(shown.get_pixel(0, 0).0, [250, 100, 20, 255]);
}
