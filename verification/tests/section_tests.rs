use screensplit::queue::FrameQueue;
use screensplit::section::{
    connection_step, create_sections, plan_sections, section_port, Config, Section,
};

fn test_config(sections: usize, flip_x: bool, flip_y: bool) -> Config {
    Config {
        upstream_address: String::from("127.0.0.1:7791"),
        real_width: 1920,
        real_height: 1080,
        sections,
        flip_x,
        flip_y,
        base_port: 8000,
    }
}

#[test]
fn plan_sections_1920_1080_4() {
    let sections = plan_sections(&test_config(4, false, false));
    let expect = [
        Section { width: 960, height: 540, x: 0, y: 0 },
        Section { width: 960, height: 540, x: 960, y: 0 },
        Section { width: 960, height: 540, x: 0, y: 540 },
        Section { width: 960, height: 540, x: 960, y: 540 },
    ];
    assert_eq!(sections, expect);
}

#[test]
fn plan_sections_count_matches() {
    for n in 1..=8 {
        let sections = plan_sections(&test_config(n, false, false));
        assert_eq!(sections.len(), n);
        for s in &sections {
            assert!(s.x as u32 + s.width as u32 <= 1920);
            assert!(s.y as u32 + s.height as u32 <= 1080);
        }
    }
}

#[test]
fn create_sections_row_major() {
    let grid = vec![vec![(10, 5)], vec![(5, 5), (5, 5)]];
    let origins = vec![vec![(0, 0)], vec![(0, 5), (5, 5)]];
    let sections = create_sections(&grid, &origins, 10, 10);
    let expect = [
        Section { width: 10, height: 5, x: 0, y: 0 },
        Section { width: 5, height: 5, x: 0, y: 5 },
        Section { width: 5, height: 5, x: 5, y: 5 },
    ];
    assert_eq!(sections, expect);
}

#[test]
fn connection_step_remaps_in_bounds_frame() {
    let config = test_config(4, false, false);
    let section = Section { width: 100, height: 100, x: 960, y: 540 };
    let out = connection_step(&[0x00, 0x0A, 0x00, 0x05, 0xFF, 0x00, 0x00], &section, &config);
    assert_eq!(out, Some([0x03, 0xCA, 0x02, 0x21, 0xFF, 0x00, 0x00]));
}

#[test]
fn connection_step_applies_configured_flips() {
    let config = test_config(4, true, false);
    let section = Section { width: 100, height: 100, x: 960, y: 540 };
    let out = connection_step(&[0x00, 0x0A, 0x00, 0x05, 0x01, 0x02, 0x03], &section, &config);
    // x: 1920 - 970 = 950 = 0x03B6; y: 545 = 0x0221.
    assert_eq!(out, Some([0x03, 0xB6, 0x02, 0x21, 0x01, 0x02, 0x03]));
}

#[test]
fn out_of_bounds_frames_never_reach_the_queue() {
    let config = test_config(4, false, false);
    let section = Section { width: 100, height: 100, x: 960, y: 540 };
    let mut queue = FrameQueue::new(128);
    let inputs: [[u8; 7]; 3] = [
        [0x00, 0x64, 0x00, 0x05, 1, 2, 3], // local x == 100, out of bounds
        [0x00, 0x0A, 0x00, 0x64, 4, 5, 6], // local y == 100, out of bounds
        [0x00, 0x0A, 0x00, 0x05, 7, 8, 9], // in bounds
    ];
    for buf in &inputs {
        if let Some(out) = connection_step(buf, &section, &config) {
            queue.try_push(out);
        }
    }
    let written = queue.drain();
    assert_eq!(written, vec![[0x03, 0xCA, 0x02, 0x21, 7, 8, 9]]);
}

#[test]
fn section_ports_count_up_from_base() {
    assert_eq!(section_port(8000, 0), Some(8000));
    assert_eq!(section_port(8000, 3), Some(8003));
    assert_eq!(section_port(65535, 1), None);
}
