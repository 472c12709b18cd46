use ffmpeg_convert::files::{
    is_converted_output, is_output_stem_lowered, is_video_file, output_file_name, sort_naturally,
};
use ffmpeg_convert::profile::{menu_step, parse_sidecar};

const EXTS: [&str; 3] = ["mp4", "mkv", "ts"];

#[test]
fn video_files_by_extension_in_any_case() {
    assert!(is_video_file("movie.MP4", &EXTS));
    assert!(is_video_file("a.b.mkv", &EXTS));
    assert!(!is_video_file("movie.mp3", &EXTS));
    assert!(!is_video_file("mp4", &EXTS));
    assert!(!is_video_file(".mp4", &EXTS));
    assert!(!is_video_file("movie.", &EXTS));
    assert!(!is_video_file("..", &EXTS));
    assert!(!is_video_file("clip.tsx", &EXTS));
}

#[test]
fn earlier_outputs_are_recognised() {
    assert!(is_converted_output("Holiday_H265"));
    assert!(is_converted_output("holiday_av1"));
    assert!(is_converted_output("X_AV1"));
    assert!(!is_converted_output("holiday"));
    assert!(!is_converted_output("h265"));
    assert!(is_output_stem_lowered("clip_h265"));
    assert!(!is_output_stem_lowered("clip_H265"));
}

#[test]
fn output_names_drop_h264_tags() {
    assert_eq!(output_file_name("trip", "_H265"), "trip_H265.mp4");
    assert_eq!(output_file_name("trip_H264", "_AV1"), "trip_AV1.mp4");
    assert_eq!(output_file_name("a_h264b_H264", "_H265"), "ab_H265.mp4");
    assert_eq!(output_file_name("_H_H2644", "_X"), "_H4_X.mp4");
}

#[test]
fn natural_order_of_a_batch() {
    let paths: Vec<String> = ["ep10.mp4", "ep2.mp4", "ep1.mp4", "a.mp4"]
        .iter()
        .map(|s| s.to_string())
        .collect();
    let sorted = sort_naturally(&paths);
    assert_eq!(sorted, vec!["a.mp4", "ep1.mp4", "ep2.mp4", "ep10.mp4"]);
    assert!(sort_naturally(&Vec::new()).is_empty());
}

#[test]
fn sidecar_lines_become_profiles() {
    let text = "// comment\n# also comment\n\n-c:v libx264 -crf 20 # _H264 # x264 CPU\r\n  -c:v copy #_COPY\nno dash # _X # nothing\n-c:a aac#_A#desc#extra\n";
    let ps = parse_sidecar(text);
    assert_eq!(ps.len(), 3);
    assert_eq!(ps[0].params, "-c:v libx264 -crf 20");
    assert_eq!(ps[0].subfix, "_H264");
    assert_eq!(ps[0].description, "x264 CPU");
    assert_eq!(ps[1].params, "-c:v copy");
    assert_eq!(ps[1].subfix, "_COPY");
    assert_eq!(ps[1].description, "-c:v copy");
    assert_eq!(ps[2].description, "desc");
}

#[test]
fn sidecar_without_profiles() {
    assert!(parse_sidecar("").is_empty());
    assert!(parse_sidecar("-c:v copy\n# -x # y\n").is_empty());
    assert_eq!(parse_sidecar("-x # y").len(), 1);
}

#[test]
fn menu_answers() {
    assert_eq!(menu_step(" 2 \n", 4, false), (Some(2), false));
    assert_eq!(menu_step("-3", 4, false), (Some(3), true));
    assert_eq!(menu_step("+1", 4, false), (Some(1), false));
    assert_eq!(menu_step("5", 4, false), (None, false));
    assert_eq!(menu_step("0", 4, false), (None, false));
    assert_eq!(menu_step("abc", 4, false), (None, false));
    assert_eq!(menu_step("-9", 4, false), (None, true));
    assert_eq!(menu_step("2", 4, true), (Some(2), true));
    assert_eq!(menu_step("99999999999", 4, false), (None, false));
    assert_eq!(menu_step("-", 4, false), (None, false));
}

#[test]
fn natural_sort_keeps_equal_paths_in_order() {
    let paths: Vec<String> = vec!["b.mp4".to_string(), "a01.mp4".to_string(), "a1.mp4".to_string()];
    assert_eq!(sort_naturally(&paths), vec!["a01.mp4", "a1.mp4", "b.mp4"]);
    let paths: Vec<String> = vec!["a1.mp4".to_string(), "b.mp4".to_string(), "a01.mp4".to_string()];
    assert_eq!(sort_naturally(&paths), vec!["a1.mp4", "a01.mp4", "b.mp4"]);
}
