use qwen_runner::config::{ConfigError, DenseKind, load_config};
use qwen_runner::graph::later_positions;
use qwen_runner::menu::{
    GgufMenu, MenuAction, MenuKey, fetch_gguf_sizes, format_bytes, preferred_gguf_index,
    selection_labels, size_of_file,
};
use qwen_runner::rotary::frequency_indices;
use qwen_runner::runtime::{
    DTypeKind, DeviceKind, PromptPiece, forward_prompt, preferred_dtype, select_device,
};

fn names(list: &[&str]) -> Vec<String> {
    list.iter().map(|name| name.to_string()).collect()
}

fn with_floats(size: u64) -> String {
    let units = ["B", "KiB", "MiB", "GiB", "TiB"];
    let mut value = size as f64;
    let mut unit = 0usize;
    while value >= 1024.0 && unit < 4 {
        value /= 1024.0;
        unit += 1;
    }
    if unit == 0 {
        format!("{size} {}", units[unit])
    } else {
        format!("{value:.2} {}", units[unit])
    }
}

#[test]
fn sizes_are_rounded_as_floating_point_numbers_are() {
    assert_eq!(format_bytes(0), "0 B");
    assert_eq!(format_bytes(1023), "1023 B");
    assert_eq!(format_bytes(1024), "1.00 KiB");
    assert_eq!(format_bytes(1536), "1.50 KiB");
    assert_eq!(format_bytes(2497281312), "2.33 GiB");
    assert_eq!(format_bytes(u64::MAX), "16777216.00 TiB");
    let mut size = 1u64;
    for i in 0..4000u64 {
        size = size.wrapping_mul(6364136223846793005).wrapping_add(1442695040888963407);
        for sample in [size, size >> 10, size >> 24, size >> 40, size >> 50, i * 4 + 1024] {
            assert_eq!(format_bytes(sample), with_floats(sample), "{sample}");
        }
    }
    for shift in 0..64 {
        for delta in 0..3u64 {
            let near = (1u64 << shift).wrapping_add(delta).wrapping_sub(1);
            assert_eq!(format_bytes(near), with_floats(near), "{near}");
        }
    }
    for eighth in 0..20000u64 {
        let tie = eighth * 128 + 1024 * 1024;
        assert_eq!(format_bytes(tie), with_floats(tie), "{tie}");
    }
}

#[test]
fn labels_are_digits_and_letters() {
    let labels = selection_labels(36).unwrap();
    assert_eq!(labels.concat(), "1234567890abcdefghijklmnopqrstuvwxyz");
    assert_eq!(selection_labels(0).unwrap().len(), 0);
    let error = selection_labels(37).unwrap_err();
    assert_eq!(error.count, 37);
    assert_eq!(
        error.message(),
        "too many gguf files to display in a single-key menu (37)"
    );
}

#[test]
fn medium_quantization_is_preferred() {
    let index = |list: &[&str]| preferred_gguf_index(&names(list));
    assert_eq!(index(&["a-Q4_0.gguf", "a-Q4_K_S.gguf", "a-Q4_K_M.gguf"]), 2);
    assert_eq!(index(&["a-Q4_0.gguf", "a-Q4_K_S.gguf"]), 1);
    assert_eq!(index(&["a-Q8_0.gguf", "a-Q4_0.gguf"]), 1);
    assert_eq!(index(&["a-Q8_0.gguf", "b.gguf"]), 0);
    assert_eq!(index(&[]), 0);
}

#[test]
fn a_menu_offers_text_models_by_key() {
    let menu = GgufMenu::new(&names(&["a-Q8_0.gguf", "mmproj-a.gguf", "b-Q4_0.gguf"])).unwrap();
    assert_eq!(menu.options, names(&["a-Q8_0.gguf", "b-Q4_0.gguf"]));
    assert_eq!(menu.preferred, 1);
    let sizes = fetch_gguf_sizes(&menu.options, &vec![Some(1536), None]);
    assert_eq!(menu.line(0, &sizes), "  [1] 1.50 KiB  a-Q8_0.gguf");
    assert_eq!(menu.line(1, &sizes), "  [2]        -  b-Q4_0.gguf (default)");
    assert_eq!(menu.on_key(MenuKey::Char('2')), MenuAction::Select(1));
    assert_eq!(menu.on_key(MenuKey::Char('3')), MenuAction::Ignore);
    assert_eq!(menu.on_key(MenuKey::Other), MenuAction::Ignore);
    assert_eq!(menu.on_key(MenuKey::Esc), MenuAction::Cancel);
}

#[test]
fn projectors_are_offered_where_there_is_nothing_else() {
    let menu = GgufMenu::new(&names(&["mmproj-a.gguf", "mmproj-b.gguf"])).unwrap();
    assert_eq!(menu.options, names(&["mmproj-a.gguf", "mmproj-b.gguf"]));
}

#[test]
fn every_key_of_a_full_menu_selects_its_option() {
    let files: Vec<String> = (0..36).map(|i| format!("{i:02}.gguf")).collect();
    let menu = GgufMenu::new(&files).unwrap();
    for (i, key) in "1234567890abcdefghijklmnopqrstuvwxyz".chars().enumerate() {
        assert_eq!(menu.on_key(MenuKey::Char(key)), MenuAction::Select(i));
        let upper = key.to_ascii_uppercase();
        assert_eq!(menu.on_key(MenuKey::Char(upper)), MenuAction::Select(i));
    }
    let more: Vec<String> = (0..40).map(|i| format!("{i:02}.gguf")).collect();
    assert_eq!(GgufMenu::new(&more).unwrap_err().count, 40);
}

#[test]
fn the_last_recorded_size_of_a_name_counts() {
    let sizes = vec![("a".to_string(), Some(1)), ("a".to_string(), None)];
    assert_eq!(size_of_file(&sizes, "a"), None);
    assert_eq!(size_of_file(&sizes, "b"), None);
    assert_eq!(size_of_file(&sizes[..1].to_vec(), "a"), Some(1));
}

#[test]
fn devices_and_formats_are_picked() {
    assert_eq!(select_device(true, true), DeviceKind::Cpu);
    assert_eq!(select_device(false, true), DeviceKind::Cuda);
    assert_eq!(select_device(false, false), DeviceKind::Cpu);
    assert_eq!(preferred_dtype(DeviceKind::Cpu), DTypeKind::F32);
    assert_eq!(preferred_dtype(DeviceKind::Cuda), DTypeKind::BF16);
}

#[test]
fn prompts_are_read_in_pieces() {
    let piece = |start, len, position| PromptPiece { start, len, position };
    assert_eq!(forward_prompt(false, 3, 5), vec![piece(0, 3, 5)]);
    assert_eq!(forward_prompt(true, 3, 0), vec![piece(0, 3, 0)]);
    assert_eq!(forward_prompt(true, 1, 5), vec![piece(0, 1, 5)]);
    assert_eq!(
        forward_prompt(true, 3, 5),
        vec![piece(0, 1, 5), piece(1, 1, 6), piece(2, 1, 7)]
    );
}

#[test]
fn a_quantized_prompt_needs_a_mask_at_its_beginning_only() {
    for position in [0usize, 1, 7] {
        for count in [1usize, 2, 5] {
            for piece in forward_prompt(true, count, position) {
                assert!(piece.len == 1 || piece.position == 0);
            }
        }
    }
}

#[test]
fn configurations_are_told_apart() {
    let nested = "{\"text_config\": {\"vocab_size\": 1}}";
    assert_eq!(load_config(nested).unwrap(), DenseKind::Qwen3_5);
    assert_eq!(load_config("{\"text_config\": null}").unwrap(), DenseKind::Qwen3_5);
    assert_eq!(load_config("{\"vocab_size\": 1}").unwrap(), DenseKind::Qwen3);
    assert_eq!(load_config("[\"text_config\"]").unwrap(), DenseKind::Qwen3);
    assert!(matches!(load_config("{"), Err(ConfigError::NotJson(_))));
}

#[test]
fn masks_and_frequencies_are_laid_out() {
    assert_eq!(later_positions(0), Vec::<bool>::new());
    assert_eq!(
        later_positions(3),
        vec![false, true, true, false, false, true, false, false, false]
    );
    assert_eq!(frequency_indices(6), vec![0, 2, 4]);
    assert_eq!(frequency_indices(5), vec![0, 2, 4]);
    assert_eq!(frequency_indices(1), vec![0]);
    assert_eq!(frequency_indices(0), Vec::<usize>::new());
}
