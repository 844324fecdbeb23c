use apk_repack::text::chars_of;
use apk_repack::icons::{
    AdaptiveIconFile, IconCandidate, ExistingIcon, discover_icon_names, select_best_icon,
    plan_icon_writes,
};

#[test]
fn manifest_icon_reference_becomes_bare_png_name() {
    let man = chars_of(
        r#"<manifest><application android:icon="@mipmap/ic_launcher"></application></manifest>"#,
    );
    let files: Vec<AdaptiveIconFile> = vec![];
    let names = discover_icon_names(&man, &files).unwrap();
    assert_eq!(names, vec![chars_of("ic_launcher.png")]);
}

#[test]
fn adaptive_foreground_is_added_and_set_is_deduplicated() {
    let man = chars_of(
        r#"<manifest><application android:icon="@mipmap/ic_launcher"></application></manifest>"#,
    );
    let files = vec![
        AdaptiveIconFile {
            name: chars_of("ic_launcher.xml"),
            content: chars_of(
                r#"<adaptive-icon><foreground android:drawable="@mipmap/ic_launcher_foreground"></foreground></adaptive-icon>"#,
            ),
        },
        AdaptiveIconFile {
            name: chars_of("ic_launcher_round.xml"),
            content: chars_of(
                r#"<adaptive-icon><foreground android:drawable="@mipmap/ic_launcher_foreground"></foreground></adaptive-icon>"#,
            ),
        },
        AdaptiveIconFile {
            name: chars_of("other.xml"),
            content: chars_of("<not even read"),
        },
    ];
    let names = discover_icon_names(&man, &files).unwrap();
    assert_eq!(
        names,
        vec![chars_of("ic_launcher.png"), chars_of("ic_launcher_foreground.png")],
    );
}

#[test]
fn reference_without_slash_is_taken_whole() {
    let man = chars_of(
        r#"<manifest><application android:icon="plain"></application></manifest>"#,
    );
    let files: Vec<AdaptiveIconFile> = vec![];
    let names = discover_icon_names(&man, &files).unwrap();
    assert_eq!(names, vec![chars_of("plain.png")]);
}

#[test]
fn best_icon_is_the_widest() {
    let cands = vec![
        IconCandidate { path: chars_of("res/mipmap-mdpi/ic_launcher.png"), width: 48 },
        IconCandidate { path: chars_of("res/mipmap-xhdpi/ic_launcher.png"), width: 96 },
        IconCandidate { path: chars_of("res/mipmap-xxxhdpi/ic_launcher.png"), width: 192 },
    ];
    assert_eq!(select_best_icon(&cands), chars_of("res/mipmap-xxxhdpi/ic_launcher.png"));
}

#[test]
fn ties_keep_the_first_candidate() {
    let cands = vec![
        IconCandidate { path: chars_of("a.png"), width: 96 },
        IconCandidate { path: chars_of("b.png"), width: 96 },
    ];
    assert_eq!(select_best_icon(&cands), chars_of("a.png"));
}

#[test]
fn no_candidate_yields_empty_path() {
    let cands: Vec<IconCandidate> = vec![];
    assert_eq!(select_best_icon(&cands), Vec::<char>::new());
}

#[test]
fn icon_writes_keep_each_targets_own_dimensions() {
    let existing = vec![
        ExistingIcon { path: chars_of("res/mipmap-mdpi/ic_launcher.png"), width: 48, height: 48 },
        ExistingIcon { path: chars_of("res/mipmap-xhdpi/ic_launcher.png"), width: 96, height: 96 },
    ];
    let writes = plan_icon_writes(&existing);
    assert_eq!(writes.len(), 2);
    assert_eq!(writes[0].path, chars_of("res/mipmap-mdpi/ic_launcher.png"));
    assert_eq!(writes[0].width, 48);
    assert_eq!(writes[1].height, 96);
}

#[test]
fn malformed_launcher_descriptor_is_an_error() {
    let man = chars_of(r#"<manifest><application android:icon="@mipmap/i"></application></manifest>"#);
    let files = vec![AdaptiveIconFile {
        name: chars_of("ic_launcher.xml"),
        content: chars_of("<foreground"),
    }];
    assert!(discover_icon_names(&man, &files).is_err());
}
