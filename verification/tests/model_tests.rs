use etcher::{Data, EmbedOutputMode, OutputMode, Settings, Timer};

#[test]
fn data_constructors() {
    let d = Data::new_out_mode(OutputMode::Color);
    assert!(d.bytes.is_empty());
    assert!(d.binary.is_empty());
    assert_eq!(d.out_mode, OutputMode::Color);

    let d = Data::from_color(vec![1, 2, 3]);
    assert_eq!(d.bytes, vec![1, 2, 3]);
    assert!(d.binary.is_empty());
    assert_eq!(d.out_mode, OutputMode::Color);

    let d = Data::from_binary(vec![true, false]);
    assert!(d.bytes.is_empty());
    assert_eq!(d.binary, vec![true, false]);
    assert_eq!(d.out_mode, OutputMode::Binary);
}

#[test]
fn settings_fields() {
    let s = Settings::new(2, 4, 30, 640, 360);
    assert_eq!(s.size, 2);
    assert_eq!(s.thread, 4);
    assert_eq!(s.fps, 30);
    assert_eq!(s.width, 640);
    assert_eq!(s.height, 360);
}

#[test]
fn timer_keeps_title() {
    let t = Timer::new("encode");
    assert_eq!(t.title, "encode");
}

#[test]
fn output_mode_conversion() {
    assert_eq!(EmbedOutputMode::Colored.to_output_mode(), OutputMode::Color);
    assert_eq!(EmbedOutputMode::Binary.to_output_mode(), OutputMode::Binary);
}
