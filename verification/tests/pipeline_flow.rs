use apk_repack::text::chars_of;
use apk_repack::pipeline::{
    PipelineState, Stage, next_stage, apply_outcome, extract_channel, channel_should_restore,
};
use apk_repack::paths::{
    get_apktool_jar_path, get_vasdolly_jar_path, get_apksigner_jar_path, get_key_store_path,
    java_exe_path, repacked_artifact_path, repacked_dest_path, unpack_dir_path,
};
use apk_repack::RepackError;

#[test]
fn successful_run_walks_every_stage_in_order() {
    let mut s = PipelineState::Ready;
    let expected = [
        Stage::Decompile,
        Stage::Rewrite,
        Stage::Build,
        Stage::Sign,
        Stage::Channel,
        Stage::Finalize,
    ];
    for st in expected {
        assert_eq!(next_stage(&s), Some(st));
        s = apply_outcome(&s, true);
    }
    assert_eq!(s, PipelineState::Finalized);
    assert_eq!(next_stage(&s), None);
}

#[test]
fn build_failure_is_terminal_and_skips_sign_and_channel() {
    let s = PipelineState::Unpacked;
    let s = apply_outcome(&s, true);
    assert_eq!(s, PipelineState::IdentityRewritten);
    let s = apply_outcome(&s, false);
    assert_eq!(s, PipelineState::Failed { stage: Stage::Build });
    assert_eq!(next_stage(&s), None);
    // a terminal state never moves again, whatever is reported
    assert_eq!(apply_outcome(&s, true), s);
    assert_eq!(apply_outcome(&s, false), s);
}

#[test]
fn each_stage_failure_names_its_stage() {
    assert_eq!(
        apply_outcome(&PipelineState::Ready, false),
        PipelineState::Failed { stage: Stage::Decompile },
    );
    assert_eq!(
        apply_outcome(&PipelineState::Signed, false),
        PipelineState::Failed { stage: Stage::Channel },
    );
    assert_eq!(
        apply_outcome(&PipelineState::ChannelRestored, false),
        PipelineState::Failed { stage: Stage::Finalize },
    );
}

#[test]
fn channel_is_read_after_the_last_marker_and_trimmed() {
    let out = chars_of("log noise\nChannel: ignored\nChannel:  stable \n");
    assert_eq!(extract_channel(&out), Some(chars_of("stable")));
}

#[test]
fn missing_channel_marker_yields_nothing() {
    let out = chars_of("no marker here");
    assert_eq!(extract_channel(&out), None);
}

#[test]
fn channel_restore_policy() {
    assert!(!channel_should_restore(&chars_of("")));
    assert!(!channel_should_restore(&chars_of("null")));
    assert!(channel_should_restore(&chars_of("store-a")));
}

#[test]
fn tool_paths_join_under_the_executable_directory() {
    let dir = chars_of("/opt/tool");
    assert_eq!(get_apktool_jar_path(&dir), chars_of("/opt/tool/apktool.jar"));
    assert_eq!(get_vasdolly_jar_path(&dir), chars_of("/opt/tool/vasdolly.jar"));
    assert_eq!(get_apksigner_jar_path(&dir), chars_of("/opt/tool/uber-apk-signer.jar"));
    assert_eq!(get_key_store_path(&dir), chars_of("/opt/tool/key.keystore"));
}

#[test]
fn artifact_and_destination_paths() {
    assert_eq!(
        repacked_artifact_path(&chars_of("/cache/run1"), &chars_of("original")),
        chars_of("/cache/run1/original.repacked.apk"),
    );
    assert_eq!(
        repacked_dest_path(&chars_of("/apks/game.apk")),
        chars_of("/apks/game.apk.repacked.apk"),
    );
    assert_eq!(unpack_dir_path(&chars_of("/cache/run1")), chars_of("/cache/run1/original"));
}

#[test]
fn java_path_depends_on_platform_and_needs_a_home() {
    assert_eq!(
        java_exe_path(&chars_of("/usr/lib/jvm"), false).unwrap(),
        chars_of("/usr/lib/jvm/bin/java"),
    );
    assert_eq!(
        java_exe_path(&chars_of("C:/jdk"), true).unwrap(),
        chars_of("C:/jdk/bin/javaw.exe"),
    );
    assert_eq!(java_exe_path(&chars_of(""), false).unwrap_err(), RepackError::ToolInvocation);
}
