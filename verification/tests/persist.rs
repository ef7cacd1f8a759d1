use pixcil::codec::{decode_canvas, encode_canvas};
use pixcil::color::Rgba;
use pixcil::deflate::{compress, compressed, decompress, decompressed};
use pixcil::error::CanvasError;
use pixcil::model::pixel_canvas::{PixelCanvasCommand, PixelCanvasModel};
use pixcil::pixel::{Pixel, PixelPosition, PixelSize};

fn at(x: i16, y: i16) -> PixelPosition {
    PixelPosition::from_xy(x, y)
}

fn same(p: PixelPosition) -> Vec<PixelPosition> {
    vec![p]
}

const RED: Rgba = Rgba { r: 255, g: 0, b: 0, a: 255 };
const BLUE: Rgba = Rgba { r: 0, g: 0, b: 255, a: 255 };

#[test]
fn plain_bytes_of_two_pixels() {
    let mut model = PixelCanvasModel::new();
    model
        .draw_pixels(&same, vec![Pixel::new(at(-1, 3), BLUE), Pixel::new(at(1, 2), RED)])
        .unwrap();
    let bytes = model.encode().unwrap();
    assert_eq!(
        bytes,
        vec![
            0, 0, 0, 0, // no commands
            0, 0, 0, 0, // cursor
            0, 0, 0, 2, // two pixels
            0, 2, 0, 1, // rows 2, 3 as differences
            0, 1, 0xff, 0xfe, // columns 1, -1 as differences
            255, 0, 0, 255, // red
            0, 0, 255, 255, // blue
        ]
    );
}

#[test]
fn plain_bytes_of_an_empty_canvas() {
    let model = PixelCanvasModel::new();
    assert_eq!(model.encode().unwrap(), vec![0u8; 12]);
    let back = PixelCanvasModel::decode(&vec![0u8; 12]).unwrap();
    assert!(back.raw_pixels().is_empty());
    assert_eq!(back.command_log().len(), 0);
}

#[test]
fn differences_wrap_around() {
    let pixels = vec![
        Pixel::new(at(i16::MAX, i16::MIN), RED),
        Pixel::new(at(i16::MIN, i16::MAX), BLUE),
    ];
    let bytes = encode_canvas(&pixels).unwrap();
    assert_eq!(
        bytes[12..20],
        [0x80, 0x00, 0xff, 0xff, 0x7f, 0xff, 0x00, 0x01]
    );
    let (log, tail, back) = decode_canvas(&bytes).unwrap();
    assert!(log.is_empty());
    assert_eq!(tail, 0);
    assert_eq!(back, pixels);
}

#[test]
fn serialize_then_deserialize_gives_the_pixels_back() {
    let mut model = PixelCanvasModel::new();
    model
        .draw_pixels(
            &same,
            vec![
                Pixel::new(at(0, 0), RED),
                Pixel::new(at(31, 17), BLUE),
                Pixel::new(at(-300, 12), Rgba::new(1, 2, 3, 4)),
                Pixel::new(at(12, -300), Rgba::new(9, 8, 7, 6)),
                Pixel::new(at(i16::MAX, i16::MAX), RED),
                Pixel::new(at(i16::MIN, i16::MIN), BLUE),
            ],
        )
        .unwrap();
    model.draw_pixels(&same, vec![Pixel::new(at(5, 5), RED)]).unwrap();
    model.undo_command(&same).unwrap();

    let data = model.serialize().unwrap();
    let back = PixelCanvasModel::deserialize(&data).unwrap();
    assert_eq!(back.raw_pixels(), model.raw_pixels());
    for p in [at(0, 0), at(31, 17), at(-300, 12), at(5, 5), at(1, 1), at(i16::MIN, i16::MIN)] {
        assert_eq!(back.get_direct_pixel(p), model.get_direct_pixel(p));
    }
    assert_eq!(back.non_neg_right_bottom(), model.non_neg_right_bottom());
    assert_eq!(back.non_neg_right_bottom(), at(i16::MAX, i16::MAX));
    let frame = PixelSize::from_wh(16, 16);
    assert_eq!(back.get_layers(frame), model.get_layers(frame));
    assert_eq!(back.get_frames(frame), model.get_frames(frame));
    assert_eq!(back.region(), model.region());
    // The history is not kept.
    assert_eq!(back.command_log().len(), 0);
    assert_eq!(back.command_log_tail(), 0);
    assert_eq!(back.state_version(), 0);
    assert!(back.dirty_positions().is_empty());
}

#[test]
fn restored_canvas_keeps_its_occupancy() {
    let mut model = PixelCanvasModel::new();
    model
        .draw_pixels(&same, vec![Pixel::new(at(9, 1), RED), Pixel::new(at(2, 6), RED)])
        .unwrap();
    let mut back = PixelCanvasModel::deserialize(&model.serialize().unwrap()).unwrap();
    assert_eq!(back.non_neg_right_bottom(), at(9, 6));
    back.erase_pixels(&same, vec![at(9, 1)]).unwrap();
    assert_eq!(back.non_neg_right_bottom(), at(2, 6));
    back.erase_pixels(&same, vec![at(2, 6)]).unwrap();
    assert_eq!(back.non_neg_right_bottom(), at(0, 0));
}

#[test]
fn serialized_bytes_are_compressed() {
    let mut model = PixelCanvasModel::new();
    let row: Vec<Pixel> = (0..200).map(|x| Pixel::new(at(x, 0), RED)).collect();
    model.draw_pixels(&same, row).unwrap();
    let raw = model.encode().unwrap();
    let data = model.serialize().unwrap();
    assert_eq!(raw.len(), 12 + 8 * 200);
    assert_ne!(data, raw);
    assert!(data.len() < raw.len());
    assert_eq!(decompress(&data), Ok(raw.clone()));
    assert_eq!(decompress(&compress(&raw).unwrap()), Ok(raw.clone()));
    // The same bytes give the same block.
    assert_eq!(compress(&raw), Ok(data.clone()));
    assert_eq!(model.serialize(), Ok(data));
    assert!(compress(&vec![]).is_ok());
}

#[test]
fn undo_of_a_command_that_does_not_fit_the_pixels_is_refused() {
    // A log that says red was drawn at (0, 0), with pixels that do not
    // hold it.
    let drawn = PixelCanvasCommand { erase: vec![], draw: vec![Pixel::new(at(0, 0), RED)] };
    let mut bytes = vec![0, 0, 0, 1];
    bytes.extend(drawn.serialize().unwrap());
    bytes.extend([0, 0, 0, 1]);
    bytes.extend(&encode_canvas(&vec![Pixel::new(at(0, 0), BLUE)]).unwrap()[8..]);
    let mut model = PixelCanvasModel::decode(&bytes).unwrap();
    assert_eq!(model.command_log_tail(), 1);
    assert_eq!(model.undo_command(&same), Err(CanvasError::ConsistencyViolation));
    assert_eq!(model.command_log_tail(), 1);
    assert_eq!(model.state_version(), 0);
    assert_eq!(model.raw_pixels(), vec![Pixel::new(at(0, 0), BLUE)]);
    assert!(model.dirty_positions().is_empty());
    // A transparent pixel in the log wants its position free.
    let clear = PixelCanvasCommand {
        erase: vec![],
        draw: vec![Pixel::new(at(0, 0), Rgba::new(0, 0, 0, 0))],
    };
    let mut bytes = vec![0, 0, 0, 1];
    bytes.extend(clear.serialize().unwrap());
    bytes.extend([0, 0, 0, 1]);
    bytes.extend(&encode_canvas(&vec![Pixel::new(at(0, 0), BLUE)]).unwrap()[8..]);
    let mut model = PixelCanvasModel::decode(&bytes).unwrap();
    assert_eq!(model.undo_command(&same), Err(CanvasError::ConsistencyViolation));
    assert_eq!(model.command_log_tail(), 1);
}

#[test]
fn bytes_that_are_no_stream_are_refused() {
    let plain = vec![0u8; 12];
    assert!(matches!(
        PixelCanvasModel::deserialize(&vec![0xff, 0xff, 0xff, 0xff, 0xff]),
        Err(CanvasError::DecodeFailure)
    ));
    assert!(matches!(PixelCanvasModel::deserialize(&vec![]), Err(CanvasError::DecodeFailure)));
    assert_eq!(decompress(&vec![0xff, 0xff, 0xff]), Err(CanvasError::DecodeFailure));
    // A stream that is cut short.
    let data = compress(&plain).unwrap();
    let cut = data[..data.len() - 1].to_vec();
    assert!(matches!(PixelCanvasModel::deserialize(&cut), Err(CanvasError::DecodeFailure)));
}

#[test]
fn plain_bytes_that_are_no_canvas_are_refused() {
    // Too short for the three counts.
    assert!(matches!(PixelCanvasModel::decode(&vec![0u8; 11]), Err(CanvasError::DecodeFailure)));
    // One pixel promised, none there.
    let mut bytes = vec![0u8; 12];
    bytes[11] = 1;
    assert!(matches!(PixelCanvasModel::decode(&bytes), Err(CanvasError::DecodeFailure)));
    bytes.extend_from_slice(&[0, 0, 0, 0, 1, 2, 3]);
    assert!(matches!(PixelCanvasModel::decode(&bytes), Err(CanvasError::DecodeFailure)));
    bytes.push(4);
    let model = PixelCanvasModel::decode(&bytes).unwrap();
    assert_eq!(model.raw_pixels(), vec![Pixel::new(at(0, 0), Rgba::new(1, 2, 3, 4))]);
    // A cursor behind the end of the log.
    let mut bytes = vec![0u8; 12];
    bytes[7] = 1;
    assert!(matches!(PixelCanvasModel::decode(&bytes), Err(CanvasError::DecodeFailure)));
    // A huge count of commands.
    let mut bytes = vec![0u8; 12];
    bytes[0] = 0xff;
    assert!(matches!(PixelCanvasModel::decode(&bytes), Err(CanvasError::DecodeFailure)));
    // The same through a compressed block.
    let data = compress(&vec![0u8; 11]).unwrap();
    assert!(matches!(PixelCanvasModel::deserialize(&data), Err(CanvasError::DecodeFailure)));
}

#[test]
fn decoded_pixels_are_put_in_order() {
    // Two pixels at one position: the later one stays. A transparent
    // pixel leaves its position free.
    let pixels = vec![
        Pixel::new(at(1, 1), RED),
        Pixel::new(at(1, 1), BLUE),
        Pixel::new(at(2, 2), RED),
        Pixel::new(at(2, 2), Rgba::new(0, 0, 0, 0)),
        Pixel::new(at(3, 3), Rgba::new(5, 5, 5, 0)),
    ];
    let bytes = encode_canvas(&pixels).unwrap();
    let model = PixelCanvasModel::decode(&bytes).unwrap();
    assert_eq!(model.raw_pixels(), vec![Pixel::new(at(1, 1), BLUE)]);
    assert_eq!(model.non_neg_right_bottom(), at(1, 1));
}

#[test]
fn command_bytes_and_back() {
    let command = PixelCanvasCommand {
        erase: vec![Pixel::new(at(1, 2), RED)],
        draw: vec![Pixel::new(at(1, 2), BLUE), Pixel::new(at(0, 5), RED)],
    };
    let bytes = command.serialize().unwrap();
    assert_eq!(
        bytes,
        vec![
            0, 0, 0, 1, // erased
            0, 0, 0, 2, // drawn
            0, 2, 0, 0, 0, 3, // rows 2, 2, 5
            0, 1, 0, 0, 0xff, 0xff, // columns 1, 1, 0
            255, 0, 0, 255, 0, 0, 255, 255, 255, 0, 0, 255,
        ]
    );
    let back = PixelCanvasCommand::deserialize(&bytes).unwrap();
    assert_eq!(back.erase, command.erase);
    assert_eq!(back.draw, command.draw);
    assert!(matches!(
        PixelCanvasCommand::deserialize(&bytes[..bytes.len() - 1].to_vec()),
        Err(CanvasError::DecodeFailure)
    ));
    let empty = PixelCanvasCommand::new().serialize().unwrap();
    assert_eq!(empty, vec![0u8; 8]);
}

#[test]
fn canvas_with_a_log_is_read() {
    let first = PixelCanvasCommand { erase: vec![], draw: vec![Pixel::new(at(0, 0), RED)] };
    let second = PixelCanvasCommand {
        erase: vec![Pixel::new(at(0, 0), RED)],
        draw: vec![Pixel::new(at(0, 0), BLUE)],
    };
    let mut bytes = vec![0, 0, 0, 2];
    bytes.extend(first.serialize().unwrap());
    bytes.extend(second.serialize().unwrap());
    bytes.extend([0, 0, 0, 1]);
    bytes.extend(&encode_canvas(&vec![Pixel::new(at(0, 0), RED)]).unwrap()[8..]);
    let mut model = PixelCanvasModel::decode(&bytes).unwrap();
    assert_eq!(model.command_log().len(), 2);
    assert_eq!(model.command_log_tail(), 1);
    assert_eq!(model.state_version(), 0);
    model.redo_command(&same).unwrap();
    assert_eq!(model.get_direct_pixel(at(0, 0)), Some(BLUE));
    model.undo_command(&same).unwrap();
    model.undo_command(&same).unwrap();
    assert!(model.raw_pixels().is_empty());
}

#[test]
fn library_errors_become_canvas_errors() {
    let failed = || std::io::Error::new(std::io::ErrorKind::Other, "failed");
    assert_eq!(compressed(Err(failed())), Err(CanvasError::EncodeFailure));
    assert_eq!(decompressed(Err(failed())), Err(CanvasError::DecodeFailure));
    assert_eq!(compressed(Ok(vec![1, 2])), Ok(vec![1, 2]));
    assert_eq!(decompressed(Ok(vec![3])), Ok(vec![3]));
}
