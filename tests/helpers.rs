use lupin::cli::{Lupin, LupinSubcommand, LupinTrelloGet};
use lupin::clock::get_unix_epoch;
use lupin::logging::{level_filter_from_number, verbosity_from_counts, LogFilter, WriterWrapper};
use lupin::telegram::{
    extension_of_subtype, flood_wait_seconds, get_file_extension, get_mime_extension,
    is_downloaded_media, is_false, DialogBackup, DialogType, MediaKind,
};
use lupin::trello::{archive_file_name, board_file_name, is_downloadable_attachment};

#[test]
fn level_filters_by_verbosity() {
    assert_eq!(level_filter_from_number(i8::MIN), LogFilter::Off);
    assert_eq!(level_filter_from_number(-1), LogFilter::Off);
    assert_eq!(level_filter_from_number(0), LogFilter::Error);
    assert_eq!(level_filter_from_number(1), LogFilter::Warn);
    assert_eq!(level_filter_from_number(2), LogFilter::Info);
    assert_eq!(level_filter_from_number(3), LogFilter::Debug);
    assert_eq!(level_filter_from_number(4), LogFilter::Trace);
    assert_eq!(level_filter_from_number(i8::MAX), LogFilter::Trace);
}

#[test]
fn verbosity_counts_flags() {
    assert_eq!(verbosity_from_counts(0, 0), 1);
    assert_eq!(verbosity_from_counts(2, 0), 3);
    assert_eq!(verbosity_from_counts(0, 2), -1);
    assert_eq!(verbosity_from_counts(255, 0), 127);
    assert_eq!(verbosity_from_counts(0, 255), -128);
    let cli = Lupin { command: LupinSubcommand::Trello(LupinTrelloGet), verbose: 1, quiet: 0 };
    assert_eq!(cli.verbosity(), 2);
}

#[test]
fn writer_wrapper_keeps_its_parts() {
    let w = WriterWrapper::new(3u8, vec![1u8]);
    assert_eq!(w.suspender, 3);
    assert_eq!(w.inner, vec![1u8]);
}

#[test]
fn flags_and_dialogs() {
    assert!(is_false(&false));
    assert!(!is_false(&true));
    let d = DialogBackup {
        name: "n".to_string(),
        username: None,
        last_name: None,
        messages: Vec::new(),
        dialog_type: DialogType::User,
    };
    assert!(d.is_empty());
}

#[test]
fn media_extensions() {
    assert_eq!(get_mime_extension(Some("image/png")), Some(".png".to_string()));
    assert_eq!(get_mime_extension(Some("application/vnd.api+json")), Some(".vnd.api".to_string()));
    assert_eq!(get_mime_extension(Some("not a mime")), None);
    assert_eq!(get_mime_extension(None), None);
    assert_eq!(extension_of_subtype("webp"), ".webp");
    assert_eq!(get_file_extension(&MediaKind::Photo), ".jpg");
    assert_eq!(get_file_extension(&MediaKind::Contact), ".vcf");
    assert_eq!(get_file_extension(&MediaKind::Other), "");
    assert_eq!(
        get_file_extension(&MediaKind::Sticker { mime_type: Some("image/webp".to_string()) }),
        ".webp"
    );
    assert_eq!(get_file_extension(&MediaKind::Sticker { mime_type: None }), "");
    assert_eq!(
        get_file_extension(&MediaKind::Document { mime_type: None, name: "report".to_string() }),
        "-report"
    );
    assert_eq!(
        get_file_extension(&MediaKind::Document {
            mime_type: Some("application/pdf".to_string()),
            name: "report".to_string()
        }),
        ".pdf"
    );
}

#[test]
fn board_names() {
    assert!(is_downloadable_attachment("scan.pdf"));
    assert!(!is_downloadable_attachment("https://example.com/x"));
    assert!(!is_downloadable_attachment("http"));
    assert!(is_downloadable_attachment("htt"));
    assert_eq!(board_file_name("Roadmap"), "Roadmap.json");
    assert_eq!(archive_file_name("2024-01-31"), "2024-01-31.tar.zst");
}

#[test]
fn clock_reads_after_the_epoch() {
    assert!(get_unix_epoch() > 1_600_000_000);
}

#[test]
fn downloaded_media_and_flood_wait() {
    assert!(is_downloaded_media(&MediaKind::Photo));
    assert!(is_downloaded_media(&MediaKind::Document { mime_type: None, name: "d".to_string() }));
    assert!(!is_downloaded_media(&MediaKind::Sticker { mime_type: None }));
    assert!(!is_downloaded_media(&MediaKind::Contact));
    assert!(!is_downloaded_media(&MediaKind::Other));
    assert_eq!(flood_wait_seconds(Some(42)), 42);
    assert_eq!(flood_wait_seconds(None), 3);
}
