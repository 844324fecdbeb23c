//! Manifest identity rewriting on top of the XML engine: reading and
//! exchanging the package name and the display name, resolving a
//! `@string/` display-name reference against the unpacked string tables,
//! and the provider-authority cascade that a package rename entails.
use vstd::prelude::*;

use crate::RepackError;
use crate::text::{
    append_chars, chars_of, clone_chars, copy_range, find_sub, has_prefix, scan_sub,
    starts_with,
};
use crate::xml::{
    doc_events, doc_fail_at, doc_ok, find_values, seqs_view, substituted, exchanged,
    xml_exchange_value, xml_find_value, xml_replace_in_values,
};

verus! {

/// The element path of the root `manifest` element.
pub open spec fn manifest_path() -> Seq<Seq<char>> {
    seq!["manifest"@]
}

/// The element path of the `application` element.
pub open spec fn application_path() -> Seq<Seq<char>> {
    seq!["application"@]
}

/// The element path of a content provider.
pub open spec fn provider_path() -> Seq<Seq<char>> {
    seq!["manifest"@, "application"@, "provider"@]
}

fn manifest_path_vec() -> (r: Vec<Vec<char>>)
    ensures
        seqs_view(r@) == manifest_path(),
        r@.len() == 1,
{
    let mut r: Vec<Vec<char>> = Vec::new();
    r.push(chars_of("manifest"));
    proof {
        assert(seqs_view(r@) =~= manifest_path());
    }
    r
}

fn application_path_vec() -> (r: Vec<Vec<char>>)
    ensures
        seqs_view(r@) == application_path(),
        r@.len() == 1,
{
    let mut r: Vec<Vec<char>> = Vec::new();
    r.push(chars_of("application"));
    proof {
        assert(seqs_view(r@) =~= application_path());
    }
    r
}

fn provider_path_vec() -> (r: Vec<Vec<char>>)
    ensures
        seqs_view(r@) == provider_path(),
        r@.len() == 3,
{
    let mut r: Vec<Vec<char>> = Vec::new();
    r.push(chars_of("manifest"));
    r.push(chars_of("application"));
    r.push(chars_of("provider"));
    proof {
        assert(seqs_view(r@) =~= provider_path());
    }
    r
}

/// The values of `package` on the root `manifest` element.
pub open spec fn package_names(man: Seq<char>) -> Seq<Seq<char>> {
    find_values(doc_events(man), manifest_path(), "package"@)
}

/// Reads the application package name out of a manifest document. A
/// manifest without the attribute is the `AttributeNotFound` error.
pub fn package_name_of(manifest: &Vec<char>) -> (r: Result<Vec<char>, RepackError>)
    ensures
        match r {
            Result::Ok(name) => doc_ok(manifest@) && package_names(manifest@).len() > 0 && name@
                == package_names(manifest@)[0],
            Result::Err(e) => match e {
                RepackError::MalformedDocument { offset } => !doc_ok(manifest@) && e
                    == (RepackError::MalformedDocument {
                    offset: doc_fail_at(manifest@) as usize,
                }),
                RepackError::AttributeNotFound => doc_ok(manifest@) && package_names(
                    manifest@,
                ).len() == 0,
                _ => false,
            },
        },
{
    let path = manifest_path_vec();
    let key = chars_of("package");
    match xml_find_value(manifest, &path, &key) {
        Result::Err(e) => Result::Err(e),
        Result::Ok(mut vals) => {
            if vals.len() == 0 {
                Result::Err(RepackError::AttributeNotFound)
            } else {
                let name = vals.remove(0);
                proof {
                    assert(seqs_view(vals@.insert(0, name))[0] == name@);
                }
                Result::Ok(name)
            }
        },
    }
}

/// The values of `android:label` on the `application` element.
pub open spec fn label_values(man: Seq<char>) -> Seq<Seq<char>> {
    find_values(doc_events(man), application_path(), "android:label"@)
}

/// The prefix that marks a display name as a string-resource reference.
pub open spec fn string_ref_prefix() -> Seq<char> {
    "@string/"@
}

/// A resource reference normalized to a string-table key: the prefix is
/// stripped, every `@` removed, and every `/` turned into `_`.
pub open spec fn normalize_key(s: Seq<char>) -> Seq<char>
    decreases s.len(),
{
    if s.len() == 0 {
        Seq::empty()
    } else {
        let rest = normalize_key(s.drop_first());
        if s[0] == '@' {
            rest
        } else if s[0] == '/' {
            seq!['_'] + rest
        } else {
            seq![s[0]] + rest
        }
    }
}

fn normalize_key_exec(s: &Vec<char>) -> (r: Vec<char>)
    ensures
        r@ == normalize_key(s@),
{
    let ghost full = s@;
    let mut out: Vec<char> = Vec::new();
    proof {
        assert(full.skip(0) =~= full);
        assert(out@ + normalize_key(full) =~= normalize_key(full));
    }
    let mut i: usize = 0;
    while i < s.len()
        invariant
            i <= s@.len(),
            full == s@,
            normalize_key(full) == out@ + normalize_key(full.skip(i as int)),
        decreases s@.len() - i,
    {
        proof {
            assert(full.skip(i as int)[0] == full[i as int]);
            assert(full.skip(i as int).drop_first() =~= full.skip(i + 1));
        }
        let ghost out0 = out@;
        let c = s[i];
        if c == '@' {
        } else if c == '/' {
            out.push('_');
            proof {
                assert(out@ =~= out0 + seq!['_']);
                assert(out0 + (seq!['_'] + normalize_key(full.skip(i + 1))) =~= out@
                    + normalize_key(full.skip(i + 1)));
            }
        } else {
            out.push(c);
            proof {
                assert(out@ =~= out0 + seq![full[i as int]]);
                assert(out0 + (seq![full[i as int]] + normalize_key(full.skip(i + 1))) =~= out@
                    + normalize_key(full.skip(i + 1)));
            }
        }
        i = i + 1;
    }
    proof {
        assert(full.skip(i as int) =~= Seq::<char>::empty());
        assert(out@ + Seq::<char>::empty() =~= out@);
    }
    out
}

/// The key a `@string/` label resolves through.
pub open spec fn resource_key(label: Seq<char>) -> Seq<char> {
    normalize_key(label.skip(string_ref_prefix().len() as int))
}

/// `<string name="KEY">`, the tag that opens a table entry.
pub open spec fn entry_open(key: Seq<char>) -> Seq<char> {
    "<string name=\""@ + key + "\">"@
}

/// `</string>`, the tag that closes a table entry.
pub open spec fn entry_close() -> Seq<char> {
    "</string>"@
}

/// The entry values for `key` in one string table, scanning from `i`:
/// each occurrence of the opening tag contributes the text up to the next
/// closing tag, and the scan continues behind that closing tag.
pub open spec fn entries_from(table: Seq<char>, key: Seq<char>, i: int) -> Seq<Seq<char>>
    decreases table.len() - i when 0 <= i
{
    let open = entry_open(key);
    let p = find_sub(table, i, open);
    if p < i {
        Seq::empty()
    } else {
        let vstart = p + open.len();
        let c = find_sub(table, vstart, entry_close());
        if c < vstart {
            Seq::empty()
        } else if !(i < c + entry_close().len() <= table.len()) {
            Seq::empty()
        } else {
            seq![table.subrange(vstart, c)] + entries_from(table, key, c + entry_close().len())
        }
    }
}

/// All entry values for `key` in one string table.
pub open spec fn table_entries(table: Seq<char>, key: Seq<char>) -> Seq<Seq<char>> {
    entries_from(table, key, 0)
}

/// The entry values for `key` over all tables, in table order.
pub open spec fn all_entries(tables: Seq<Seq<char>>, key: Seq<char>) -> Seq<Seq<char>>
    decreases tables.len(),
{
    if tables.len() == 0 {
        Seq::empty()
    } else {
        table_entries(tables[0], key) + all_entries(tables.drop_first(), key)
    }
}

/// Extracts all entry values for `key` from one string table.
fn table_entries_exec(table: &Vec<char>, key: &Vec<char>) -> (r: Vec<Vec<char>>)
    ensures
        seqs_view(r@) == table_entries(table@, key@),
{
    let mut open = chars_of("<string name=\"");
    append_chars(&mut open, key);
    let close_quote = chars_of("\">");
    append_chars(&mut open, &close_quote);
    let close = chars_of("</string>");
    proof {
        assert(open@ == entry_open(key@));
        reveal_strlit("</string>");
        assert(close@.len() == 9);
    }
    let n: usize = table.len();
    let mut out: Vec<Vec<char>> = Vec::new();
    let mut pos: usize = 0;
    proof {
        assert(seqs_view(out@) + entries_from(table@, key@, 0) =~= entries_from(
            table@,
            key@,
            0,
        ));
    }
    loop
        invariant
            n == table@.len(),
            pos <= n,
            open@ == entry_open(key@),
            close@ == entry_close(),
            close@.len() == 9,
            table_entries(table@, key@) == seqs_view(out@) + entries_from(
                table@,
                key@,
                pos as int,
            ),
        decreases n - pos,
    {
        let ghost pos0 = pos as int;
        match scan_sub(table, pos, &open) {
            None => {
                proof {
                    assert(seqs_view(out@) + Seq::<Seq<char>>::empty() =~= seqs_view(out@));
                }
                return out;
            },
            Some(p) => {
                let vstart = p + open.len();
                match scan_sub(table, vstart, &close) {
                    None => {
                        proof {
                            assert(seqs_view(out@) + Seq::<Seq<char>>::empty() =~= seqs_view(
                                out@,
                            ));
                        }
                        return out;
                    },
                    Some(c) => {
                        let val = copy_range(table, vstart, c);
                        let ghost out0 = seqs_view(out@);
                        out.push(val);
                        pos = c + close.len();
                        proof {
                            assert(seqs_view(out@) =~= out0.push(table@.subrange(
                                vstart as int,
                                c as int,
                            )));
                            assert(entries_from(table@, key@, pos0) == seq![table@.subrange(
                                vstart as int,
                                c as int,
                            )] + entries_from(table@, key@, pos as int));
                            assert(out0 + (seq![table@.subrange(vstart as int, c as int)]
                                + entries_from(table@, key@, pos as int)) =~= seqs_view(out@)
                                + entries_from(table@, key@, pos as int));
                        }
                    },
                }
            },
        }
    }
}

/// The remaining entries each preceded by a comma.
pub open spec fn rest_commas(es: Seq<Seq<char>>) -> Seq<char>
    decreases es.len(),
{
    if es.len() == 0 {
        Seq::empty()
    } else {
        seq![','] + es[0] + rest_commas(es.drop_first())
    }
}

/// The entries joined with a `,` separator.
pub open spec fn join_commas(es: Seq<Seq<char>>) -> Seq<char> {
    if es.len() == 0 {
        Seq::empty()
    } else {
        es[0] + rest_commas(es.drop_first())
    }
}

fn join_commas_exec(es: &Vec<Vec<char>>) -> (r: Vec<char>)
    ensures
        r@ == join_commas(seqs_view(es@)),
{
    let ghost full = seqs_view(es@);
    if es.len() == 0 {
        return Vec::new();
    }
    let mut out = clone_chars(&es[0]);
    proof {
        assert(full.skip(1) =~= full.drop_first());
        assert(join_commas(full) == out@ + rest_commas(full.skip(1)));
    }
    let mut i: usize = 1;
    while i < es.len()
        invariant
            1 <= i <= es@.len(),
            full == seqs_view(es@),
            full.len() == es@.len(),
            join_commas(full) == out@ + rest_commas(full.skip(i as int)),
        decreases es@.len() - i,
    {
        proof {
            assert(full.skip(i as int)[0] == es@[i as int]@);
            assert(full.skip(i as int).drop_first() =~= full.skip(i + 1));
        }
        let ghost out0 = out@;
        out.push(',');
        append_chars(&mut out, &es[i]);
        proof {
            assert(out@ =~= out0 + (seq![','] + es@[i as int]@));
            assert(out0 + ((seq![','] + es@[i as int]@) + rest_commas(full.skip(i + 1))) =~= out@
                + rest_commas(full.skip(i + 1)));
            assert((seq![','] + es@[i as int]@) + rest_commas(full.skip(i + 1)) =~= seq![',']
                + es@[i as int]@ + rest_commas(full.skip(i + 1)));
        }
        i = i + 1;
    }
    proof {
        assert(full.skip(i as int) =~= Seq::<Seq<char>>::empty());
        assert(out@ + Seq::<char>::empty() =~= out@);
    }
    out
}

/// The sentinel reported when a referenced display name resolves to no
/// table entry: display name is non-critical and must not abort a run.
pub open spec fn display_name_sentinel() -> Seq<char> {
    "error find display name"@
}

/// What a manifest label resolves to against the given string tables: a
/// literal label is itself; a `@string/` reference is every matching
/// entry across the tables joined with `,`, or the sentinel when there is
/// none.
pub open spec fn resolved_display(label: Seq<char>, tables: Seq<Seq<char>>) -> Seq<char> {
    if !starts_with(label, string_ref_prefix()) {
        label
    } else {
        let es = all_entries(tables, resource_key(label));
        if es.len() == 0 {
            display_name_sentinel()
        } else {
            join_commas(es)
        }
    }
}

/// Reads the display name: the `android:label` of the `application`
/// element, resolved against the string tables handed in (one content per
/// readable `values*` directory, in enumeration order). A manifest
/// without the label is the `AttributeNotFound` error.
pub fn display_name_of(manifest: &Vec<char>, tables: &Vec<Vec<char>>) -> (r: Result<
    Vec<char>,
    RepackError,
>)
    ensures
        match r {
            Result::Ok(d) => doc_ok(manifest@) && label_values(manifest@).len() > 0 && d@
                == resolved_display(label_values(manifest@)[0], seqs_view(tables@)),
            Result::Err(e) => match e {
                RepackError::MalformedDocument { .. } => !doc_ok(manifest@) && e
                    == (RepackError::MalformedDocument {
                    offset: doc_fail_at(manifest@) as usize,
                }),
                RepackError::AttributeNotFound => doc_ok(manifest@) && label_values(
                    manifest@,
                ).len() == 0,
                _ => false,
            },
        },
{
    let path = application_path_vec();
    let key = chars_of("android:label");
    let mut vals = match xml_find_value(manifest, &path, &key) {
        Result::Err(e) => {
            return Result::Err(e);
        },
        Result::Ok(vals) => vals,
    };
    if vals.len() == 0 {
        return Result::Err(RepackError::AttributeNotFound);
    }
    let label = vals.remove(0);
    proof {
        assert(seqs_view(vals@.insert(0, label))[0] == label@);
    }
    let prefix = chars_of("@string/");
    if !has_prefix(&label, &prefix) {
        return Result::Ok(label);
    }
    let rest = copy_range(&label, prefix.len(), label.len());
    proof {
        assert(rest@ =~= label@.skip(string_ref_prefix().len() as int));
    }
    let res_key = normalize_key_exec(&rest);
    let ghost vtables = seqs_view(tables@);
    let mut es: Vec<Vec<char>> = Vec::new();
    proof {
        assert(vtables.skip(0) =~= vtables);
        assert(seqs_view(es@) + all_entries(vtables, res_key@) =~= all_entries(
            vtables,
            res_key@,
        ));
    }
    let mut t: usize = 0;
    while t < tables.len()
        invariant
            t <= tables@.len(),
            vtables == seqs_view(tables@),
            vtables.len() == tables@.len(),
            all_entries(vtables, res_key@) == seqs_view(es@) + all_entries(
                vtables.skip(t as int),
                res_key@,
            ),
        decreases tables@.len() - t,
    {
        proof {
            assert(vtables.skip(t as int)[0] == tables@[t as int]@);
            assert(vtables.skip(t as int).drop_first() =~= vtables.skip(t + 1));
        }
        let ghost es0 = seqs_view(es@);
        let mut batch = table_entries_exec(&tables[t], &res_key);
        let ghost bv = seqs_view(batch@);
        es.append(&mut batch);
        proof {
            assert(seqs_view(es@) =~= es0 + bv);
            assert(es0 + (bv + all_entries(vtables.skip(t + 1), res_key@)) =~= seqs_view(es@)
                + all_entries(vtables.skip(t + 1), res_key@));
        }
        t = t + 1;
    }
    proof {
        assert(vtables.skip(t as int) =~= Seq::<Seq<char>>::empty());
        assert(seqs_view(es@) + Seq::<Seq<char>>::empty() =~= seqs_view(es@));
    }
    if es.len() == 0 {
        Result::Ok(chars_of("error find display name"))
    } else {
        Result::Ok(join_commas_exec(&es))
    }
}

/// Exchanges the `package` attribute on the root `manifest` element.
pub fn rewrite_package_name(manifest: &Vec<char>, new_name: &Vec<char>) -> (r: Result<
    Vec<char>,
    RepackError,
>)
    ensures
        match r {
            Result::Ok(out) => doc_ok(manifest@) && out@ == crate::xml::concat_raw(
                exchanged(doc_events(manifest@), manifest_path(), "package"@, new_name@),
            ),
            Result::Err(e) => !doc_ok(manifest@) && e == (RepackError::MalformedDocument {
                offset: doc_fail_at(manifest@) as usize,
            }),
        },
{
    let path = manifest_path_vec();
    let key = chars_of("package");
    xml_exchange_value(manifest, &path, &key, new_name)
}

/// Exchanges the `android:label` attribute on the `application` element;
/// a literal or a resource reference is overridden uniformly with the
/// literal new value.
pub fn rewrite_display_name(manifest: &Vec<char>, new_name: &Vec<char>) -> (r: Result<
    Vec<char>,
    RepackError,
>)
    ensures
        match r {
            Result::Ok(out) => doc_ok(manifest@) && out@ == crate::xml::concat_raw(
                exchanged(doc_events(manifest@), application_path(), "android:label"@, new_name@),
            ),
            Result::Err(e) => !doc_ok(manifest@) && e == (RepackError::MalformedDocument {
                offset: doc_fail_at(manifest@) as usize,
            }),
        },
{
    let path = application_path_vec();
    let key = chars_of("android:label");
    xml_exchange_value(manifest, &path, &key, new_name)
}

/// The authority cascade that must follow a package rename: inside every
/// provider's `android:authorities` value, each literal occurrence of the
/// old package name becomes the new one; an authority without the old
/// name as a substring is left unchanged, and so is everything else.
pub fn rewrite_provider_authorities(
    manifest: &Vec<char>,
    old_pkg: &Vec<char>,
    new_pkg: &Vec<char>,
) -> (r: Result<Vec<char>, RepackError>)
    requires
        old_pkg@.len() >= 1,
    ensures
        match r {
            Result::Ok(out) => doc_ok(manifest@) && out@ == crate::xml::concat_raw(
                substituted(
                    doc_events(manifest@),
                    provider_path(),
                    "android:authorities"@,
                    old_pkg@,
                    new_pkg@,
                ),
            ),
            Result::Err(e) => !doc_ok(manifest@) && e == (RepackError::MalformedDocument {
                offset: doc_fail_at(manifest@) as usize,
            }),
        },
{
    let path = provider_path_vec();
    let key = chars_of("android:authorities");
    xml_replace_in_values(manifest, &path, &key, old_pkg, new_pkg)
}

} // verus!
