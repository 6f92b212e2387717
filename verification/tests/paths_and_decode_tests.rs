use waverender::decode::{
    decode_action, packet_action, DecodeAction, DecodeEvent, PacketAction, PacketEvent,
};
use waverender::paths::prepare_output_path;

#[test]
fn missing_extension_gets_png_appended() {
    assert_eq!(prepare_output_path("out"), "out.png");
    assert_eq!(prepare_output_path("dir.d/name"), "dir.d/name.png");
    assert_eq!(prepare_output_path(".hidden"), ".hidden.png");
}

#[test]
fn foreign_extension_keeps_name_and_appends_png() {
    assert_eq!(prepare_output_path("img.jpg"), "img.jpg.png");
    assert_eq!(prepare_output_path("a.tar.gz"), "a.tar.gz.png");
}

#[test]
fn png_extension_is_kept_case_insensitively() {
    assert_eq!(prepare_output_path("pic.png"), "pic.png");
    assert_eq!(prepare_output_path("pic.PNG"), "pic.PNG");
    assert_eq!(prepare_output_path("some/dir/pic.Png"), "some/dir/pic.Png");
}

#[test]
fn trailing_separators_are_ignored() {
    assert_eq!(prepare_output_path("x/"), "x.png");
    assert_eq!(prepare_output_path("dir/name//"), "dir/name.png");
    assert_eq!(prepare_output_path("dir/pic.png/"), "dir/pic.png/");
}

#[test]
fn paths_without_a_file_name_are_unchanged() {
    assert_eq!(prepare_output_path(""), "");
    assert_eq!(prepare_output_path("/"), "/");
    assert_eq!(prepare_output_path("."), ".");
    assert_eq!(prepare_output_path(".."), "..");
    assert_eq!(prepare_output_path("a/.."), "a/..");
}

#[test]
fn normalization_is_idempotent() {
    for p in ["out", "x/", "img.jpg", ".hidden", "pic.PNG", "", "/", "..", "a.tar.gz/"] {
        let once = prepare_output_path(p);
        assert_eq!(prepare_output_path(&once), once);
    }
}

#[test]
fn packet_policy_matches_error_taxonomy() {
    assert!(matches!(
        packet_action(&PacketEvent::Packet { matches_track: true }),
        PacketAction::Decode
    ));
    assert!(matches!(
        packet_action(&PacketEvent::Packet { matches_track: false }),
        PacketAction::Skip
    ));
    assert!(matches!(
        packet_action(&PacketEvent::ResetRequired),
        PacketAction::FailUnsupported
    ));
    assert!(matches!(
        packet_action(&PacketEvent::EndOfStream),
        PacketAction::Finish
    ));
    assert!(matches!(
        packet_action(&PacketEvent::ReadError),
        PacketAction::FailRead
    ));
}

#[test]
fn decode_policy_skips_recoverable_errors() {
    assert!(matches!(decode_action(&DecodeEvent::Decoded), DecodeAction::Append));
    assert!(matches!(decode_action(&DecodeEvent::IoError), DecodeAction::Skip));
    assert!(matches!(decode_action(&DecodeEvent::BadData), DecodeAction::Skip));
    assert!(matches!(
        decode_action(&DecodeEvent::Unrecoverable),
        DecodeAction::Fail
    ));
}
