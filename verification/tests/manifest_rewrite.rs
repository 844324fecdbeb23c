use apk_repack::text::{chars_of, replace_all};
use apk_repack::manifest::{
    package_name_of, display_name_of, rewrite_package_name, rewrite_display_name,
    rewrite_provider_authorities,
};
use apk_repack::RepackError;

#[test]
fn reads_package_name() {
    let man = chars_of(r#"<manifest package="com.example.app"><application></application></manifest>"#);
    assert_eq!(package_name_of(&man).unwrap(), chars_of("com.example.app"));
}

#[test]
fn missing_package_name_is_attribute_not_found() {
    let man = chars_of(r#"<manifest><application></application></manifest>"#);
    assert_eq!(package_name_of(&man).unwrap_err(), RepackError::AttributeNotFound);
}

#[test]
fn literal_display_name_is_returned_as_is() {
    let man = chars_of(r#"<manifest><application android:label="My App"></application></manifest>"#);
    let tables: Vec<Vec<char>> = vec![];
    assert_eq!(display_name_of(&man, &tables).unwrap(), chars_of("My App"));
}

#[test]
fn referenced_display_name_resolves_across_tables() {
    let man = chars_of(
        r#"<manifest><application android:label="@string/app_name"></application></manifest>"#,
    );
    let tables = vec![
        chars_of(r#"<resources><string name="app_name">Foo</string></resources>"#),
        chars_of(r#"<resources><string name="app_name">FooEN</string></resources>"#),
    ];
    assert_eq!(display_name_of(&man, &tables).unwrap(), chars_of("Foo,FooEN"));
}

#[test]
fn unresolved_reference_reports_sentinel() {
    let man = chars_of(
        r#"<manifest><application android:label="@string/app_name"></application></manifest>"#,
    );
    let tables = vec![chars_of(r#"<resources><string name="other">Foo</string></resources>"#)];
    assert_eq!(
        display_name_of(&man, &tables).unwrap(),
        chars_of("error find display name"),
    );
}

#[test]
fn missing_label_is_attribute_not_found() {
    let man = chars_of(r#"<manifest><application></application></manifest>"#);
    let tables: Vec<Vec<char>> = vec![];
    assert_eq!(display_name_of(&man, &tables).unwrap_err(), RepackError::AttributeNotFound);
}

#[test]
fn rewrites_package_name_in_place() {
    let man = chars_of(r#"<manifest package="com.foo"><application a="b"></application></manifest>"#);
    let out = rewrite_package_name(&man, &chars_of("com.bar")).unwrap();
    assert_eq!(
        out,
        chars_of(r#"<manifest package="com.bar"><application a="b"></application></manifest>"#),
    );
}

#[test]
fn rewrites_display_name_uniformly() {
    let man = chars_of(
        r#"<manifest><application android:label="@string/app_name"></application></manifest>"#,
    );
    let out = rewrite_display_name(&man, &chars_of("New Name")).unwrap();
    assert_eq!(
        out,
        chars_of(r#"<manifest><application android:label="New Name"></application></manifest>"#),
    );
}

#[test]
fn authority_cascade_rewrites_matching_substring_only() {
    let man = chars_of(
        r#"<manifest package="com.bar"><application><provider android:authorities="com.foo.provider"></provider><provider android:authorities="com.other.provider"></provider></application></manifest>"#,
    );
    let out = rewrite_provider_authorities(&man, &chars_of("com.foo"), &chars_of("com.bar"))
        .unwrap();
    assert_eq!(
        out,
        chars_of(
            r#"<manifest package="com.bar"><application><provider android:authorities="com.bar.provider"></provider><provider android:authorities="com.other.provider"></provider></application></manifest>"#,
        ),
    );
}

#[test]
fn cascade_formula_on_single_authority() {
    assert_eq!(
        replace_all(&chars_of("com.foo.provider"), &chars_of("com.foo"), &chars_of("com.bar")),
        chars_of("com.bar.provider"),
    );
    assert_eq!(
        replace_all(&chars_of("com.other.provider"), &chars_of("com.foo"), &chars_of("com.bar")),
        chars_of("com.other.provider"),
    );
}

#[test]
fn replacement_does_not_rescan_inserted_text() {
    assert_eq!(replace_all(&chars_of("aaa"), &chars_of("aa"), &chars_of("a")), chars_of("aa"));
    assert_eq!(replace_all(&chars_of("xx"), &chars_of("x"), &chars_of("xy")), chars_of("xyxy"));
}

#[test]
fn cascade_result_reads_back_rewritten() {
    let man = chars_of(
        r#"<manifest><application><provider android:authorities="com.foo.provider"></provider></application></manifest>"#,
    );
    let out = rewrite_provider_authorities(&man, &chars_of("com.foo"), &chars_of("com.bar"))
        .unwrap();
    let path = vec![chars_of("manifest"), chars_of("application"), chars_of("provider")];
    let key = chars_of("android:authorities");
    let vals = apk_repack::xml::xml_find_value(&out, &path, &key).unwrap();
    assert_eq!(vals, vec![chars_of("com.bar.provider")]);
}

#[test]
fn malformed_manifest_aborts_the_read() {
    let man = chars_of(r#"<manifest package="com.foo"#);
    assert!(matches!(
        package_name_of(&man).unwrap_err(),
        RepackError::MalformedDocument { .. }
    ));
}
