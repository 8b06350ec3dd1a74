use vectomancy::cli::{CliMode, CliOutputFormat, VideoArgs};
use vectomancy::config::{Mode, OutputFormat, TextConfig, VideoConfig};
use vectomancy::error::VectomancyError;
use vectomancy::geometry::{ConversionMode, StyledPath};
use vectomancy::input::{classify_extension, classify_format, paint_color, InputKind};
use vectomancy::settings::{
    frame_file_name, is_supported_input_extension, output_extension, output_file_name, parse_gpu_power,
    resolve_mode, resolve_output_format, resolve_thread_count, text_output_format, GpuPower,
};
use vectomancy::text::{format_decimal, format_hex_color};

#[test]
fn thread_count_resolution() {
    assert_eq!(resolve_thread_count(None, None, 8), 1);
    assert_eq!(resolve_thread_count(Some(4), Some(2), 8), 4);
    assert_eq!(resolve_thread_count(None, Some(2), 8), 2);
    assert_eq!(resolve_thread_count(Some(0), None, 8), 8);
    assert_eq!(resolve_thread_count(Some(64), None, 8), 8);
    assert_eq!(resolve_thread_count(None, Some(0), 1), 1);
}

#[test]
fn format_and_mode_resolution() {
    assert_eq!(resolve_output_format(Some(CliOutputFormat::Desmos), Some(OutputFormat::Json), OutputFormat::Png), OutputFormat::Desmos);
    assert_eq!(resolve_output_format(None, Some(OutputFormat::Json), OutputFormat::Png), OutputFormat::Json);
    assert_eq!(resolve_output_format(None, None, OutputFormat::Png), OutputFormat::Png);
    assert_eq!(resolve_mode(Some(CliMode::Chaikin), Some(Mode::Fourier), Mode::Spline), Mode::Chaikin);
    assert_eq!(resolve_mode(None, Some(Mode::Fourier), Mode::Spline), Mode::Fourier);
    assert_eq!(resolve_mode(None, None, Mode::Spline), Mode::Spline);
}

#[test]
fn command_line_choices_convert() {
    assert_eq!(OutputFormat::from(CliOutputFormat::Python), OutputFormat::Python);
    assert_eq!(OutputFormat::from(CliOutputFormat::Html), OutputFormat::Html);
    assert_eq!(OutputFormat::from(CliOutputFormat::Json), OutputFormat::Json);
    assert_eq!(OutputFormat::from(CliOutputFormat::Desmos), OutputFormat::Desmos);
    assert_eq!(OutputFormat::from(CliOutputFormat::Png), OutputFormat::Png);
    assert_eq!(OutputFormat::from(CliOutputFormat::Jpg), OutputFormat::Jpg);
    assert_eq!(OutputFormat::from(CliOutputFormat::Webp), OutputFormat::Webp);
    assert_eq!(Mode::from(CliMode::Fourier), Mode::Fourier);
    assert_eq!(Mode::from(CliMode::Spline), Mode::Spline);
    assert_eq!(Mode::from(CliMode::Chaikin), Mode::Chaikin);
}

#[test]
fn extensions_of_formats() {
    assert_eq!(output_extension(OutputFormat::Png), "png");
    assert_eq!(output_extension(OutputFormat::Jpg), "jpg");
    assert_eq!(output_extension(OutputFormat::Webp), "webp");
    assert_eq!(output_extension(OutputFormat::Python), "py");
    assert_eq!(output_extension(OutputFormat::Html), "html");
    assert_eq!(output_extension(OutputFormat::Json), "json");
    assert_eq!(output_extension(OutputFormat::Desmos), "html");
}

#[test]
fn input_extensions() {
    assert!(is_supported_input_extension("png"));
    assert!(is_supported_input_extension("JPEG"));
    assert!(is_supported_input_extension("Svg"));
    assert!(is_supported_input_extension("jpg"));
    assert!(!is_supported_input_extension("webp"));
    assert!(!is_supported_input_extension("gif"));
    assert!(!is_supported_input_extension(""));
}

#[test]
fn text_formats_from_extension() {
    assert_eq!(text_output_format(Some("py")), OutputFormat::Python);
    assert_eq!(text_output_format(Some("HTML")), OutputFormat::Html);
    assert_eq!(text_output_format(Some("json")), OutputFormat::Json);
    assert_eq!(text_output_format(Some("Desmos")), OutputFormat::Desmos);
    assert_eq!(text_output_format(Some("txt")), OutputFormat::Json);
    assert_eq!(text_output_format(None), OutputFormat::Json);
}

#[test]
fn file_names() {
    assert_eq!(output_file_name("cat", "png"), "cat_vectomancy.png");
    assert_eq!(output_file_name("", "json"), "_vectomancy.json");
    assert_eq!(frame_file_name(1, "json"), "frame_0001.json");
    assert_eq!(frame_file_name(0, "png"), "frame_0000.png");
    assert_eq!(frame_file_name(1234, "py"), "frame_1234.py");
    assert_eq!(frame_file_name(123456, "html"), "frame_123456.html");
}

#[test]
fn gpu_power_names() {
    assert_eq!(parse_gpu_power("LowPower"), GpuPower::LowPower);
    assert_eq!(parse_gpu_power("none"), GpuPower::NoPreference);
    assert_eq!(parse_gpu_power("NONE"), GpuPower::NoPreference);
    assert_eq!(parse_gpu_power("HighPerformance"), GpuPower::HighPerformance);
    assert_eq!(parse_gpu_power("whatever"), GpuPower::HighPerformance);
}

#[test]
fn input_kinds() {
    assert_eq!(classify_format("PNG").unwrap(), InputKind::Raster);
    assert_eq!(classify_format("webp").unwrap(), InputKind::Raster);
    assert_eq!(classify_format("jpeg").unwrap(), InputKind::Raster);
    assert_eq!(classify_format("svg").unwrap(), InputKind::Vector);
    match classify_format("bmp") {
        Err(VectomancyError::InvalidInput(m)) => assert_eq!(m, "Unsupported file format: bmp"),
        other => panic!("unexpected {:?}", other),
    }
    match classify_extension("") {
        Err(VectomancyError::InvalidInput(m)) => assert_eq!(m, "Unsupported file extension: "),
        other => panic!("unexpected {:?}", other),
    }
    assert_eq!(classify_extension("SVG").unwrap(), InputKind::Vector);
}

#[test]
fn vector_path_colours() {
    let red = Some((255, 0, 0));
    let blue = Some((0, 0, 255));
    assert_eq!(paint_color(false, Some(red), Some(blue)), None);
    assert_eq!(paint_color(true, Some(red), Some(blue)), red);
    assert_eq!(paint_color(true, Some(None), Some(blue)), None);
    assert_eq!(paint_color(true, None, Some(blue)), blue);
    assert_eq!(paint_color(true, None, None), None);
}

#[test]
fn numbers_and_colours_as_text() {
    assert_eq!(format_decimal(0), "0");
    assert_eq!(format_decimal(907), "907");
    assert_eq!(format_decimal(u64::MAX), "18446744073709551615");
    assert_eq!(format_hex_color(255, 0, 16), "#ff0010");
    assert_eq!(format_hex_color(0xc8, 0x1e, 0x1e), "#c81e1e");
}

#[test]
fn configs_and_paths() {
    assert_eq!(VideoConfig::default().enabled, None);
    assert_eq!(TextConfig::default().font, None);
    let p = StyledPath::new(vec![(1i64, 2i64)], Some("#000000".to_string()));
    assert_eq!(p.geometry, vec![(1, 2)]);
    assert_eq!(p.color_style, Some("#000000".to_string()));
    let args = VideoArgs { input: "in.mp4".to_string(), output: None, no_simplify_math: false };
    assert_eq!(args.input, "in.mp4");
    assert_eq!(ConversionMode::Fourier { terms: 3 }, ConversionMode::Fourier { terms: 3 });
    assert_ne!(ConversionMode::Polyline, ConversionMode::Spline);
}
