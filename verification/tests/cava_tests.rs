use mediaviz::cava::{build_config, SpectrumBuffer};

const OVERRIDE_BLOCK: &str = "\n[general]\nbars = 12\n\n[output]\nmethod = raw\nraw_target = /dev/stdout\ndata_format = binary\nbit_format = 8bit\nchannels = mono\n";

fn build(user: &str, bars: usize) -> String {
    String::from_utf8(build_config(&user.as_bytes().to_vec(), bars)).unwrap()
}

#[test]
fn empty_user_config_gets_override_block_only() {
    assert_eq!(build("", 12), OVERRIDE_BLOCK);
}

#[test]
fn output_section_is_replaced_and_bars_overridden() {
    let user = "[general]\nbars = 100\nframerate = 60\n\n[output]\nmethod = ncurses\nstyle = stereo\n[color]\nbackground = black\n";
    let cfg = build(user, 12);
    let expected = format!(
        "[general]\nframerate = 60\n\n[color]\nbackground = black\n{}",
        OVERRIDE_BLOCK
    );
    assert_eq!(cfg, expected);
}

#[test]
fn exactly_one_output_section_header() {
    let user = "[output]\nmethod = ncurses\n[output]\nmethod = sdl\nkeep = 1\n";
    let cfg = build(user, 3);
    let headers = cfg.lines().filter(|l| l.trim() == "[output]").count();
    assert_eq!(headers, 1);
    // nothing of the user's output sections survives
    assert!(!cfg.contains("ncurses"));
    assert!(!cfg.contains("sdl"));
    assert!(!cfg.contains("keep = 1"));
}

#[test]
fn user_bars_setting_is_dropped() {
    let cfg = build("[general]\nbars = 999\n", 7);
    assert!(!cfg.contains("999"));
    assert!(cfg.contains("bars = 7"));
}

#[test]
fn crlf_user_config() {
    let cfg = build("[general]\r\nframerate = 30\r\n[output]\r\nmethod = x\r\n", 2);
    let expected = format!(
        "[general]\nframerate = 30\n{}",
        OVERRIDE_BLOCK.replace("bars = 12", "bars = 2")
    );
    assert_eq!(cfg, expected);
}

#[test]
fn indented_section_header_is_recognized() {
    // the header test runs on the trimmed line
    let cfg = build("  [output]\nmethod = x\n[general]\nkeep = 1\n", 4);
    assert!(!cfg.contains("method = x"));
    assert!(cfg.contains("keep = 1"));
}

#[test]
fn spectrum_buffer_starts_at_zero() {
    let b = SpectrumBuffer::new(4);
    assert_eq!(b.num_bars(), 4);
    assert_eq!(b.get_bars(), vec![0u8, 0, 0, 0]);
}

#[test]
fn spectrum_buffer_update_replaces_whole_frame() {
    let mut b = SpectrumBuffer::new(4);
    b.update(&vec![1u8, 2, 3, 4]);
    assert_eq!(b.get_bars(), vec![1u8, 2, 3, 4]);
    b.update(&vec![9u8, 8, 7, 6]);
    assert_eq!(b.get_bars(), vec![9u8, 8, 7, 6]);
    assert_eq!(b.num_bars(), 4);
}
