use apk_repack::text::chars_of;
use apk_repack::xml::{tokenize, serialize, xml_find_value, xml_exchange_value};
use apk_repack::RepackError;

#[test]
fn find_returns_value_at_path() {
    let doc = chars_of(r#"<manifest package="com.foo"><application android:label="x"></application></manifest>"#);
    let path = vec![chars_of("manifest")];
    let key = chars_of("package");
    let vals = xml_find_value(&doc, &path, &key).unwrap();
    assert_eq!(vals, vec![chars_of("com.foo")]);
}

#[test]
fn find_ignores_sibling_with_same_leaf_name() {
    let doc = chars_of(r#"<r><a><b x="1"></b></a><b x="2"></b></r>"#);
    let path = vec![chars_of("r"), chars_of("a"), chars_of("b")];
    let key = chars_of("x");
    let vals = xml_find_value(&doc, &path, &key).unwrap();
    assert_eq!(vals, vec![chars_of("1")]);
}

#[test]
fn find_returns_all_matches_in_document_order() {
    // repeated nested elements can match more than once
    let doc = chars_of(r#"<m><p a="1"><p a="2"></p></p></m>"#);
    let path = vec![chars_of("m"), chars_of("p")];
    let key = chars_of("a");
    let vals = xml_find_value(&doc, &path, &key).unwrap();
    assert_eq!(vals, vec![chars_of("1"), chars_of("2")]);
}

#[test]
fn find_on_unreached_path_is_empty_not_error() {
    let doc = chars_of(r#"<m><p a="1"></p></m>"#);
    let path = vec![chars_of("nothing")];
    let key = chars_of("a");
    let vals = xml_find_value(&doc, &path, &key).unwrap();
    assert!(vals.is_empty());
}

#[test]
fn find_skips_matched_element_without_key() {
    let doc = chars_of(r#"<m><p b="1"><p a="2"></p></p></m>"#);
    let path = vec![chars_of("m"), chars_of("p")];
    let key = chars_of("a");
    let vals = xml_find_value(&doc, &path, &key).unwrap();
    assert_eq!(vals, vec![chars_of("2")]);
}

#[test]
fn self_closing_element_is_never_matched() {
    let doc = chars_of(r#"<m><p a="1"/><p a="2"></p></m>"#);
    let path = vec![chars_of("m"), chars_of("p")];
    let key = chars_of("a");
    let vals = xml_find_value(&doc, &path, &key).unwrap();
    assert_eq!(vals, vec![chars_of("2")]);
}

#[test]
fn malformed_document_reports_offset() {
    let doc = chars_of("<a");
    let path = vec![chars_of("a")];
    let key = chars_of("x");
    let err = xml_find_value(&doc, &path, &key).unwrap_err();
    assert_eq!(err, RepackError::MalformedDocument { offset: 2 });
}

#[test]
fn malformed_attribute_reports_offset() {
    let doc = chars_of("<a b>");
    let path = vec![chars_of("a")];
    let key = chars_of("b");
    let err = xml_find_value(&doc, &path, &key).unwrap_err();
    // the key `b` is never followed by `=`; scanning fails at the `>`
    assert_eq!(err, RepackError::MalformedDocument { offset: 4 });
}

#[test]
fn exchange_replaces_existing_attribute() {
    let doc = chars_of(r#"<manifest other="x" package="com.foo"></manifest>"#);
    let path = vec![chars_of("manifest")];
    let key = chars_of("package");
    let val = chars_of("com.bar");
    let out = xml_exchange_value(&doc, &path, &key, &val).unwrap();
    // the exchanged key moves to the end; the untouched attribute keeps
    // its place and the attribute count is unchanged
    assert_eq!(out, chars_of(r#"<manifest other="x" package="com.bar"></manifest>"#));
}

#[test]
fn exchange_appends_absent_attribute() {
    let doc = chars_of(r#"<manifest></manifest>"#);
    let path = vec![chars_of("manifest")];
    let key = chars_of("package");
    let val = chars_of("com.bar");
    let out = xml_exchange_value(&doc, &path, &key, &val).unwrap();
    assert_eq!(out, chars_of(r#"<manifest package="com.bar"></manifest>"#));
}

#[test]
fn exchange_then_find_returns_new_value() {
    let doc = chars_of(r#"<m><p a="old"></p></m>"#);
    let path = vec![chars_of("m"), chars_of("p")];
    let key = chars_of("a");
    let val = chars_of("new");
    let out = xml_exchange_value(&doc, &path, &key, &val).unwrap();
    let vals = xml_find_value(&out, &path, &key).unwrap();
    assert_eq!(vals, vec![chars_of("new")]);
}

#[test]
fn exchange_twice_is_byte_identical() {
    let doc = chars_of(r#"<m t="x"><p a="old" b="k"></p>text<!-- c --></m>"#);
    let path = vec![chars_of("m"), chars_of("p")];
    let key = chars_of("a");
    let val = chars_of("new");
    let once = xml_exchange_value(&doc, &path, &key, &val).unwrap();
    let twice = xml_exchange_value(&once, &path, &key, &val).unwrap();
    assert_eq!(once, twice);
}

#[test]
fn exchange_preserves_everything_outside_the_match() {
    let doc = chars_of(
        "<?xml version=\"1.0\"?><!-- note --><a t=\"1\">  <b x=\"y\"></b>text</a>",
    );
    let path = vec![chars_of("a")];
    let key = chars_of("t");
    let val = chars_of("2");
    let out = xml_exchange_value(&doc, &path, &key, &val).unwrap();
    assert_eq!(
        out,
        chars_of("<?xml version=\"1.0\"?><!-- note --><a t=\"2\">  <b x=\"y\"></b>text</a>"),
    );
}

#[test]
fn tokenize_serialize_round_trip() {
    let doc = chars_of(
        "<?xml version=\"1.0\" encoding=\"utf-8\"?>\n<m a='1'>\n  <!-- c --><p/>text</m>\n",
    );
    let evts = tokenize(&doc).unwrap();
    assert_eq!(serialize(&evts), doc);
}

#[test]
fn single_quoted_values_are_read_and_kept() {
    let doc = chars_of(r#"<m><p a='say "hi"' b="1"></p></m>"#);
    let path = vec![chars_of("m"), chars_of("p")];
    let a = chars_of("a");
    let vals = xml_find_value(&doc, &path, &a).unwrap();
    assert_eq!(vals, vec![chars_of("say \"hi\"")]);
    let b = chars_of("b");
    let out = xml_exchange_value(&doc, &path, &b, &chars_of("2")).unwrap();
    // the quoted value keeps its single quotes because it holds a `"`
    assert_eq!(out, chars_of(r#"<m><p a='say "hi"' b="2"></p></m>"#));
}

#[test]
fn comment_content_is_not_matched() {
    let doc = chars_of(r#"<m><!-- <p a="ghost"></p> --><p a="real"></p></m>"#);
    let path = vec![chars_of("m"), chars_of("p")];
    let key = chars_of("a");
    let vals = xml_find_value(&doc, &path, &key).unwrap();
    assert_eq!(vals, vec![chars_of("real")]);
}
