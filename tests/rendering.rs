use base64::Engine;
use bazel_flags::docs::{escape_markdown, render_documentation, replace_text};
use bazel_flags::flag_info::FlagInfo;
use bazel_flags::payload::{decode_command_output, decompress_bundle, PayloadError};

fn keep_going() -> FlagInfo {
    FlagInfo {
        name: "keep_going".to_string(),
        old_name: None,
        abbreviation: Some("k".to_string()),
        commands: vec!["build".to_string()],
        requires_value: false,
        has_negative_flag: true,
        bazel_versions: vec![],
        metadata_tags: vec![],
        effect_tags: vec!["LOADING_AND_ANALYSIS".to_string(), "EXECUTION".to_string()],
        documentation: Some("Continue after an error in %{product}. See `x` (a_b).".to_string()),
        documentation_category: Some("Strategy".to_string()),
    }
}

#[test]
fn documentation_markdown_full() {
    let doc = keep_going().get_documentation_markdown();
    assert_eq!(
        doc,
        "`--keep_going` [`-k`], `--nokeep_going`\n\n\
         Continue after an error in Bazel\\. See \\`x\\` \\(a\\_b\\)\\.\n\n\
         Effect tags: loading_and_analysis, execution\n\
         Category: strategy\n"
    );
}

#[test]
fn documentation_markdown_minimal() {
    let mut f = keep_going();
    f.abbreviation = None;
    f.has_negative_flag = false;
    f.documentation = None;
    f.effect_tags = vec![];
    f.metadata_tags = vec!["DEPRECATED".to_string()];
    f.documentation_category = None;
    assert_eq!(f.get_documentation_markdown(), "`--keep_going`\n\nTags: deprecated\n");
}

#[test]
fn render_takes_tags_as_given() {
    let f = keep_going();
    let doc = render_documentation(&f, &vec!["A".to_string(), "b".to_string()], &vec![], &None);
    assert!(doc.ends_with("\n\nEffect tags: A, b\n"));
}

#[test]
fn escaping_and_replacing() {
    assert_eq!(escape_markdown("a-b*c"), "a\\-b\\*c");
    assert_eq!(escape_markdown("\\<>"), "\\\\\\<\\>");
    assert_eq!(escape_markdown(""), "");
    assert_eq!(escape_markdown("é"), "é");
    assert_eq!(replace_text("%{product}%{product}x", "%{product}", "Bazel"), "BazelBazelx");
    assert_eq!(replace_text("aaa", "aa", "b"), "ba");
    assert_eq!(replace_text("no match", "zz", "y"), "no match");
}

#[test]
fn base64_output_decodes() {
    assert_eq!(decode_command_output(b"aGVsbG8="), Ok(b"hello".to_vec()));
    let encoded = base64::engine::general_purpose::STANDARD.encode([0u8, 159, 146, 150]);
    assert_eq!(decode_command_output(encoded.as_bytes()), Ok(vec![0u8, 159, 146, 150]));
    assert_eq!(decode_command_output(b"not base64!"), Err(PayloadError::Base64));
}

#[test]
fn bundle_decompresses() {
    let data = b"flag catalog flag catalog flag catalog".to_vec();
    let bundle = lz4_flex::compress_prepend_size(&data);
    assert_ne!(bundle, data);
    assert_eq!(decompress_bundle(&bundle), Ok(data));
    assert_eq!(decompress_bundle(&[1, 0]), Err(PayloadError::Decompress));
    assert_eq!(decompress_bundle(&[]), Err(PayloadError::Decompress));
}
