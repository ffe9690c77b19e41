use emblem_swapper::emblem::format::{parse_slot_bytes, strip_http, EMPTY_SHAPE, LAYER_SIZE, NUM_LAYERS};
use emblem_swapper::emblem::outline::{outline_rgba, RgbaPlane};

fn make_layer_record(shape: u16, r: f32, rot: f32, outlined: bool, flipped: bool) -> [u8; LAYER_SIZE] {
    let mut rec = [0u8; LAYER_SIZE];
    rec[0..2].copy_from_slice(&shape.to_le_bytes());
    rec[4..8].copy_from_slice(&r.to_le_bytes());
    rec[8..12].copy_from_slice(&0.5f32.to_le_bytes());
    rec[12..16].copy_from_slice(&0.25f32.to_le_bytes());
    rec[16..20].copy_from_slice(&1.0f32.to_le_bytes());
    rec[20..24].copy_from_slice(&0.1f32.to_le_bytes());
    rec[24..28].copy_from_slice(&(-0.1f32).to_le_bytes());
    rec[28..32].copy_from_slice(&0.0f32.to_le_bytes());
    rec[32..36].copy_from_slice(&0.0f32.to_le_bytes());
    rec[36..40].copy_from_slice(&rot.to_le_bytes());
    rec[40] = outlined as u8;
    rec[41] = flipped as u8;
    rec
}

#[test]
fn strips_http_headers_and_parses_layers() {
    let mut body = Vec::new();
    body.extend_from_slice(&make_layer_record(0, 1.0, 45.0, true, false));
    body.extend_from_slice(&make_layer_record(EMPTY_SHAPE, 0.0, 0.0, false, false));
    body.extend_from_slice(&make_layer_record(38, 0.0, 0.0, false, true));
    for _ in 3..NUM_LAYERS {
        body.extend_from_slice(&make_layer_record(EMPTY_SHAPE, 0.0, 0.0, false, false));
    }
    assert_eq!(body.len(), LAYER_SIZE * NUM_LAYERS);

    let mut framed = b"HTTP/1.1 200 OK\r\nContent-Length: 1408\r\n\r\n".to_vec();
    framed.extend_from_slice(&body);

    let layers = parse_slot_bytes(&framed);
    assert_eq!(layers.len(), 2);
    assert_eq!(layers[0].index, 0);
    assert_eq!(layers[0].shape, 0);
    assert!(layers[0].outlined);
    assert!(!layers[0].flipped);
    assert_eq!(layers[1].index, 2);
    assert_eq!(layers[1].shape, 38);
    assert!(layers[1].flipped);
}

#[test]
fn layer_fields_keep_the_float_bit_patterns() {
    let mut body = Vec::new();
    body.extend_from_slice(&make_layer_record(7, 1.0, 45.0, false, false));
    let layers = parse_slot_bytes(&body);
    assert_eq!(layers.len(), 1);
    assert_eq!(f32::from_bits(layers[0].r), 1.0);
    assert_eq!(f32::from_bits(layers[0].g), 0.5);
    assert_eq!(f32::from_bits(layers[0].b), 0.25);
    assert_eq!(f32::from_bits(layers[0].y), -0.1);
    assert_eq!(f32::from_bits(layers[0].rot), 45.0);
}

#[test]
fn strip_http_without_a_head_keeps_everything() {
    assert_eq!(strip_http(b"abc"), b"abc");
    assert_eq!(strip_http(b"HTTP/1.1 200 OK\r\n\r\nxyz"), b"xyz");
    assert_eq!(strip_http(b"\r\n\r\n"), b"");
}

#[test]
fn a_partial_last_record_is_ignored_and_at_most_32_are_read() {
    let mut body = Vec::new();
    for _ in 0..40 {
        body.extend_from_slice(&make_layer_record(1, 0.0, 0.0, false, false));
    }
    assert_eq!(parse_slot_bytes(&body).len(), 32);
    let short = make_layer_record(1, 0.0, 0.0, false, false);
    assert_eq!(parse_slot_bytes(&short[..LAYER_SIZE - 1]).len(), 0);
}

fn ring_image() -> RgbaPlane {
    let mut pixels = Vec::new();
    for y in 0..40u32 {
        for x in 0..40u32 {
            let a = if x < 5 || x >= 35 || y < 5 || y >= 35 { 0 } else { 255 };
            pixels.extend_from_slice(&[255, 0, 0, a]);
        }
    }
    RgbaPlane { width: 40, height: 40, pixels }
}

#[test]
fn outline_extracts_a_ring_not_a_fill() {
    let solid = ring_image();
    // A stroke of 3 pixels gives a radius of 2.
    let outlined = outline_rgba(&solid, 2);
    let alpha = |x: usize, y: usize| outlined.pixels[(y * 40 + x) * 4 + 3];
    assert_eq!(alpha(20, 20), 0);
    assert!(alpha(5, 20) > 0);
}

#[test]
fn outline_keeps_colour_and_is_empty_on_a_uniform_image() {
    let mut pixels = Vec::new();
    for _ in 0..(8 * 6) {
        pixels.extend_from_slice(&[10, 20, 30, 200]);
    }
    let img = RgbaPlane { width: 8, height: 6, pixels };
    let out = outline_rgba(&img, 1);
    assert_eq!(out.width, 8);
    assert_eq!(out.height, 6);
    for p in out.pixels.chunks(4) {
        assert_eq!(p, &[10, 20, 30, 0]);
    }
}
