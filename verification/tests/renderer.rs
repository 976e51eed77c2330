use repo2markdown::renderer::{human_readable_size, FileKind, Renderer, SizeCheck};

#[test]
fn renderer_writes_header() {
    let mut renderer = Renderer::new(String::new());

    renderer.render_header("Project name");

    assert_eq!(renderer.into_output(), "# Project name\n");
}

#[test]
fn renderer_renders_single_file() {
    let mut renderer = Renderer::new(String::new());

    let input = "fn main() {}".as_bytes();
    renderer.render_file(b"main.rs", input);
    let expected = "\n## File: main.rs\n```\nfn main() {}\n```\n";

    assert_eq!(renderer.into_output(), expected);
}

#[test]
fn renderer_places_a_placeholder_for_binary_files_by_default() {
    let mut renderer = Renderer::new(String::new());

    let input: &[u8] = &[0x00, 0x01, 0x02, 0xc3];
    let kind = renderer.render_file(b"image.png", input);
    let expected = "\n## File: image.png\n[BINARY FILE]\n";

    assert_eq!(kind, FileKind::Binary);
    assert_eq!(renderer.into_output(), expected);
}

#[test]
fn filename_with_linebreaks_and_invalid_chars_handled_properly() {
    let mut renderer = Renderer::new(String::new());

    let input = "fn main() {}".as_bytes();
    let filename: &[u8] = b"jap\xE3\x81\x82dir/some\nma\xc3in.rs";
    renderer.render_file(filename, input);
    let expected = "\n## File: japあdir/some\\nma\\xC3in.rs\n```\nfn main() {}\n```\n";

    assert_eq!(renderer.into_output(), expected);
}

#[test]
fn file_with_backticks_is_handled_safely() {
    let mut renderer = Renderer::new(String::new());

    let input = "fn main() { println!(\"``` inside\"); }".as_bytes();
    renderer.render_file(b"example.rs", input);
    let expected = "\n## File: example.rs\n````\n\
        fn main() { println!(\"``` inside\"); }\n````\n";

    assert_eq!(renderer.into_output(), expected);
}

#[test]
fn renderer_places_placeholder_for_large_files_by_default() {
    let mut renderer = Renderer::new(String::new()).with_max_file_size(5); // smaller than file

    let content = "A".repeat(10); // 10 bytes -> bigger than the limit
    let check = renderer.render_path(b"big.txt", content.len() as u64);
    let expected = "\n## File: big.txt\n[FILE TOO LARGE]\n";

    assert_eq!(check, SizeCheck::TooLarge);
    assert_eq!(renderer.into_output(), expected);
}

#[test]
fn format_readable_filesizes() {
    assert_eq!(human_readable_size(10), "10 B");
    assert_eq!(human_readable_size(1500), "1.5 KiB");
    assert_eq!(human_readable_size(1_048_576), "1.0 MiB");
    assert_eq!(human_readable_size(5_242_880), "5.0 MiB");
}

#[test]
fn file_within_limit_is_left_to_render_file() {
    let mut renderer = Renderer::new(String::new()).with_max_file_size(10);
    assert_eq!(renderer.render_path(b"exact.txt", 10), SizeCheck::WithinLimit);
    assert_eq!(renderer.render_path(b"over.txt", 11), SizeCheck::TooLarge);
    assert_eq!(renderer.into_output(), "\n## File: over.txt\n[FILE TOO LARGE]\n");
}

#[test]
fn default_limit_is_one_million_bytes() {
    let mut renderer = Renderer::new(String::new());
    assert_eq!(renderer.render_path(b"a", 1_000_000), SizeCheck::WithinLimit);
    assert_eq!(renderer.render_path(b"b", 1_000_001), SizeCheck::TooLarge);
}

#[test]
fn sections_are_appended_in_order() {
    let mut renderer = Renderer::new(String::from("start\n"));
    renderer.render_header("P");
    assert_eq!(renderer.render_file(b"a.txt", b"x"), FileKind::Text);
    renderer.render_binary_file(b"b.bin");
    renderer.render_large_file(b"c.big");
    assert_eq!(
        renderer.into_output(),
        "start\n# P\n\n## File: a.txt\n```\nx\n```\n\n## File: b.bin\n[BINARY FILE]\n\n## File: c.big\n[FILE TOO LARGE]\n"
    );
}

#[test]
fn fence_outgrows_long_backtick_runs() {
    let mut renderer = Renderer::new(String::new());
    renderer.render_file(b"t.md", "a`b``c`````d".as_bytes());
    assert_eq!(renderer.into_output(), "\n## File: t.md\n``````\na`b``c`````d\n``````\n");
}

#[test]
fn empty_file_is_an_empty_code_block() {
    let mut renderer = Renderer::new(String::new());
    assert_eq!(renderer.render_file(b"e", b""), FileKind::Text);
    assert_eq!(renderer.into_output(), "\n## File: e\n```\n\n```\n");
}

#[test]
fn multibyte_text_is_kept() {
    let mut renderer = Renderer::new(String::new());
    renderer.render_file(b"u.txt", "héllo → 世界 🎉".as_bytes());
    assert_eq!(renderer.into_output(), "\n## File: u.txt\n```\nhéllo → 世界 🎉\n```\n");
}

#[test]
fn truncated_and_overlong_sequences_are_binary() {
    let mut renderer = Renderer::new(String::new());
    assert_eq!(renderer.render_file(b"a", &[0xe3, 0x81]), FileKind::Binary);
    assert_eq!(renderer.render_file(b"b", &[0xc0, 0x80]), FileKind::Binary);
    assert_eq!(renderer.render_file(b"c", &[0xed, 0xa0, 0x80]), FileKind::Binary);
    assert_eq!(renderer.render_file(b"d", &[0xf4, 0x90, 0x80, 0x80]), FileKind::Binary);
}

fn float_readable_size(bytes: u64) -> String {
    let units = ["B", "KiB", "MiB", "GiB", "TiB"];
    let mut size = bytes as f64;
    let mut unit = 0;
    while size >= 1024.0 && unit < units.len() - 1 {
        size /= 1024.0;
        unit += 1;
    }
    if unit == 0 {
        format!("{} {}", bytes, units[unit])
    } else {
        format!("{:.1} {}", size, units[unit])
    }
}

#[test]
fn readable_sizes_match_float_formatting() {
    let mut samples: Vec<u64> = vec![
        0, 1, 1023, 1024, 1025, 1126, 1127, 1280, 1331, 1332, 1433, 1434, 1536, 3840, 10239,
        10240, 1_048_575, 1_048_576, 1_310_720, 1_073_741_823, 1_073_741_824, 1_099_511_627_775,
        1_099_511_627_776, 1_374_389_534_720, u64::MAX, u64::MAX - 1, 1 << 53, (1 << 53) + 1,
        (1 << 54) + 3, (1 << 63) + (1 << 10) + 1,
    ];
    let mut x: u64 = 0x9E37_79B9_7F4A_7C15;
    for _ in 0..20000 {
        x ^= x << 13;
        x ^= x >> 7;
        x ^= x << 17;
        samples.push(x >> (x % 60));
        samples.push(x);
    }
    for k in 0..64u32 {
        for t in 0..16u64 {
            samples.push(((5 * t + 5) << k) / 20);
            samples.push((t << k) | (1u64 << k).wrapping_sub(1) >> 1);
        }
    }
    for b in samples {
        assert_eq!(human_readable_size(b), float_readable_size(b), "bytes = {}", b);
    }
}

#[test]
fn exact_half_tenths_round_to_even() {
    assert_eq!(human_readable_size(1280), float_readable_size(1280));
    assert_eq!(human_readable_size(3840), float_readable_size(3840));
}

#[test]
fn warnings_name_the_file_and_sizes() {
    let renderer = Renderer::new(String::new()).with_max_file_size(5);
    assert_eq!(
        renderer.warn_about_filesize(b"big.txt", 10),
        "Warning: skipping large file: big.txt (10 B > limit 5 B)"
    );
    let default = Renderer::new(String::new());
    assert_eq!(
        default.warn_about_filesize(b"dir/huge\n.bin", 5_242_880),
        "Warning: skipping large file: dir/huge\\n.bin (5.0 MiB > limit 976.6 KiB)"
    );
    assert_eq!(
        default.warn_about_binary_file(b"image\xff.png"),
        "Warning: skipping binary file: image\\xFF.png"
    );
}
