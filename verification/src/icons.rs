//! Launcher-icon discovery and selection.
//!
//! The icon name set is derived from the manifest's `android:icon`
//! reference and from the adaptive-icon descriptors (the `ic_launcher*`
//! files of the `mipmap-anydpi-v26` directory, whose `foreground` element
//! names a drawable). Each reference is reduced to a bare file name (the
//! text after the last `/`, suffixed `.png`) and the set is deduplicated.
//! Selection walks the candidates a caller found on disk and keeps the
//! first one of the greatest pixel width.
use vstd::prelude::*;

use crate::RepackError;
use crate::manifest::application_path;
use crate::text::{
    chars_eq, chars_of, clone_chars, copy_range, has_prefix, rfind_char, scan_last_char,
    starts_with,
};
use crate::xml::{doc_events, doc_ok, find_values, seqs_view, xml_find_value};

verus! {

/// The element path of an adaptive icon's foreground layer.
pub open spec fn foreground_path() -> Seq<Seq<char>> {
    seq!["foreground"@]
}

/// The prefix of the adaptive-icon descriptors that are read.
pub open spec fn launcher_prefix() -> Seq<char> {
    "ic_launcher"@
}

/// The bare icon file name a reference stands for: the text after the
/// last `/` (the whole reference when it has none), suffixed `.png`.
pub open spec fn bare_icon_name(r: Seq<char>) -> Seq<char> {
    r.skip(rfind_char(r, r.len() - 1, '/') + 1) + ".png"@
}

/// Exec mirror of `bare_icon_name`.
fn bare_icon_name_exec(r: &Vec<char>) -> (out: Vec<char>)
    ensures
        out@ == bare_icon_name(r@),
{
    let n: usize = r.len();
    let start: usize = match scan_last_char(r, '/') {
        Some(p) => p + 1,
        None => 0,
    };
    let mut out = copy_range(r, start, n);
    let suffix = chars_of(".png");
    crate::text::append_chars(&mut out, &suffix);
    proof {
        assert(r@.subrange(start as int, r@.len() as int) =~= r@.skip(
            rfind_char(r@, r@.len() - 1, '/') + 1,
        ));
    }
    out
}

/// One adaptive-icon descriptor: its file name and its text.
pub struct AdaptiveIconFile {
    pub name: Vec<char>,
    pub content: Vec<char>,
}

impl View for AdaptiveIconFile {
    type V = (Seq<char>, Seq<char>);

    open spec fn view(&self) -> (Seq<char>, Seq<char>) {
        (self.name@, self.content@)
    }
}

/// The views of a list of descriptor files.
pub open spec fn files_view(files: Seq<AdaptiveIconFile>) -> Seq<(Seq<char>, Seq<char>)> {
    files.map_values(|f: AdaptiveIconFile| f@)
}

/// The `android:icon` references of the manifest's `application` element,
/// as bare names.
pub open spec fn manifest_icon_names(man: Seq<char>) -> Seq<Seq<char>> {
    find_values(doc_events(man), application_path(), "android:icon"@).map_values(
        |r: Seq<char>| bare_icon_name(r),
    )
}

/// The foreground drawables of the launcher descriptors, as bare names,
/// in file order.
pub open spec fn adaptive_names(files: Seq<(Seq<char>, Seq<char>)>) -> Seq<Seq<char>>
    decreases files.len(),
{
    if files.len() == 0 {
        Seq::empty()
    } else {
        let rest = adaptive_names(files.drop_first());
        if starts_with(files[0].0, launcher_prefix()) {
            find_values(doc_events(files[0].1), foreground_path(), "android:drawable"@).map_values(
                |r: Seq<char>| bare_icon_name(r),
            ) + rest
        } else {
            rest
        }
    }
}

/// Every icon name reference, before deduplication.
pub open spec fn icon_pool(man: Seq<char>, files: Seq<(Seq<char>, Seq<char>)>) -> Seq<Seq<char>> {
    manifest_icon_names(man) + adaptive_names(files)
}

/// Whether every launcher descriptor scans without error.
pub open spec fn adaptive_ok(files: Seq<(Seq<char>, Seq<char>)>) -> bool {
    forall|k: int|
        0 <= k < files.len() && starts_with(#[trigger] files[k].0, launcher_prefix()) ==> doc_ok(
            files[k].1,
        )
}

/// The names with duplicates dropped; the first occurrence keeps its
/// place.
pub open spec fn dedup_names(s: Seq<Seq<char>>) -> Seq<Seq<char>>
    decreases s.len(),
{
    if s.len() == 0 {
        s
    } else {
        let pre = dedup_names(s.drop_last());
        if pre.contains(s.last()) {
            pre
        } else {
            pre.push(s.last())
        }
    }
}

/// Whether the list holds the given name.
fn contains_chars(vs: &Vec<Vec<char>>, x: &Vec<char>) -> (r: bool)
    ensures
        r == seqs_view(vs@).contains(x@),
{
    let mut i: usize = 0;
    while i < vs.len()
        invariant
            i <= vs@.len(),
            forall|k: int| 0 <= k < i ==> seqs_view(vs@)[k] != x@,
        decreases vs@.len() - i,
    {
        if chars_eq(&vs[i], x) {
            proof {
                assert(seqs_view(vs@)[i as int] == x@);
            }
            return true;
        }
        i = i + 1;
    }
    proof {
        if seqs_view(vs@).contains(x@) {
            let k = choose|k: int| 0 <= k < seqs_view(vs@).len() && seqs_view(vs@)[k] == x@;
            assert(seqs_view(vs@)[k] != x@);
        }
    }
    false
}

/// Derives the deduplicated icon name set from the manifest and the
/// adaptive-icon descriptors. The error is a malformed document: the
/// manifest itself, or a launcher descriptor.
pub fn discover_icon_names(manifest: &Vec<char>, files: &Vec<AdaptiveIconFile>) -> (r: Result<
    Vec<Vec<char>>,
    RepackError,
>)
    ensures
        match r {
            Result::Ok(names) => doc_ok(manifest@) && adaptive_ok(files_view(files@))
                && seqs_view(names@) == dedup_names(icon_pool(manifest@, files_view(files@))),
            Result::Err(e) => e is MalformedDocument && (!doc_ok(manifest@) || !adaptive_ok(
                files_view(files@),
            )),
        },
{
    let app_path = {
        let mut v: Vec<Vec<char>> = Vec::new();
        v.push(chars_of("application"));
        proof {
            assert(seqs_view(v@) =~= application_path());
        }
        v
    };
    let icon_key = chars_of("android:icon");
    let refs = match xml_find_value(manifest, &app_path, &icon_key) {
        Result::Err(e) => {
            return Result::Err(e);
        },
        Result::Ok(refs) => refs,
    };
    let mut pool: Vec<Vec<char>> = Vec::new();
    let mut i: usize = 0;
    while i < refs.len()
        invariant
            i <= refs@.len(),
            seqs_view(refs@) == find_values(
                doc_events(manifest@),
                application_path(),
                "android:icon"@,
            ),
            pool@.len() == i,
            forall|k: int| 0 <= k < i ==> seqs_view(pool@)[k] == manifest_icon_names(manifest@)[k],
        decreases refs@.len() - i,
    {
        let bare = bare_icon_name_exec(&refs[i]);
        pool.push(bare);
        i = i + 1;
    }
    proof {
        assert(seqs_view(pool@) =~= manifest_icon_names(manifest@));
    }
    let ghost vfiles = files_view(files@);
    let launcher = chars_of("ic_launcher");
    let fg_path = {
        let mut v: Vec<Vec<char>> = Vec::new();
        v.push(chars_of("foreground"));
        proof {
            assert(seqs_view(v@) =~= foreground_path());
        }
        v
    };
    let drawable_key = chars_of("android:drawable");
    proof {
        assert(vfiles.skip(0) =~= vfiles);
        assert(seqs_view(pool@) + adaptive_names(vfiles) =~= icon_pool(manifest@, vfiles));
    }
    let mut j: usize = 0;
    while j < files.len()
        invariant
            j <= files@.len(),
            vfiles == files_view(files@),
            vfiles.len() == files@.len(),
            launcher@ == launcher_prefix(),
            seqs_view(fg_path@) == foreground_path(),
            fg_path@.len() == 1,
            drawable_key@ == "android:drawable"@,
            doc_ok(manifest@),
            icon_pool(manifest@, vfiles) == seqs_view(pool@) + adaptive_names(
                vfiles.skip(j as int),
            ),
            forall|k: int|
                0 <= k < j && starts_with(#[trigger] vfiles[k].0, launcher_prefix()) ==> doc_ok(
                    vfiles[k].1,
                ),
        decreases files@.len() - j,
    {
        proof {
            assert(vfiles.skip(j as int)[0] == files@[j as int]@);
            assert(vfiles.skip(j as int).drop_first() =~= vfiles.skip(j + 1));
        }
        if has_prefix(&files[j].name, &launcher) {
            let refs2 = match xml_find_value(&files[j].content, &fg_path, &drawable_key) {
                Result::Err(e) => {
                    proof {
                        assert(!doc_ok(vfiles[j as int].1));
                        assert(!adaptive_ok(vfiles));
                    }
                    return Result::Err(e);
                },
                Result::Ok(refs2) => refs2,
            };
            let mut batch: Vec<Vec<char>> = Vec::new();
            let mut b: usize = 0;
            while b < refs2.len()
                invariant
                    b <= refs2@.len(),
                    j < files@.len(),
                    vfiles == files_view(files@),
                    seqs_view(refs2@) == find_values(
                        doc_events(vfiles[j as int].1),
                        foreground_path(),
                        "android:drawable"@,
                    ),
                    batch@.len() == b,
                    forall|k: int|
                        0 <= k < b ==> seqs_view(batch@)[k] == bare_icon_name(
                            #[trigger] seqs_view(refs2@)[k],
                        ),
                decreases refs2@.len() - b,
            {
                let ghost bb = b as int;
                let bare = bare_icon_name_exec(&refs2[b]);
                batch.push(bare);
                b = b + 1;
                proof {
                    assert(seqs_view(batch@)[bb] == bare_icon_name(refs2@[bb]@));
                    assert(seqs_view(refs2@)[bb] == refs2@[bb]@);
                }
            }
            let ghost pool0 = seqs_view(pool@);
            let ghost bv = seqs_view(batch@);
            proof {
                let mapped = seqs_view(refs2@).map_values(|r2: Seq<char>| bare_icon_name(r2));
                assert forall|k: int| 0 <= k < bv.len() implies bv[k] == mapped[k] by {
                    assert(mapped[k] == bare_icon_name(seqs_view(refs2@)[k]));
                }
                assert(bv =~= mapped);
            }
            pool.append(&mut batch);
            proof {
                assert(seqs_view(pool@) =~= pool0 + bv);
                assert(pool0 + (bv + adaptive_names(vfiles.skip(j + 1))) =~= seqs_view(pool@)
                    + adaptive_names(vfiles.skip(j + 1)));
            }
        }
        j = j + 1;
    }
    proof {
        assert(vfiles.skip(j as int) =~= Seq::<(Seq<char>, Seq<char>)>::empty());
        assert(seqs_view(pool@) + Seq::<Seq<char>>::empty() =~= seqs_view(pool@));
    }
    let ghost vpool = seqs_view(pool@);
    let mut names: Vec<Vec<char>> = Vec::new();
    proof {
        assert(vpool.subrange(0, 0) =~= Seq::<Seq<char>>::empty());
    }
    let mut d: usize = 0;
    while d < pool.len()
        invariant
            d <= pool@.len(),
            vpool == seqs_view(pool@),
            vpool.len() == pool@.len(),
            seqs_view(names@) == dedup_names(vpool.subrange(0, d as int)),
        decreases pool@.len() - d,
    {
        proof {
            assert(vpool.subrange(0, d + 1).drop_last() =~= vpool.subrange(0, d as int));
            assert(vpool.subrange(0, d + 1).last() == vpool[d as int]);
        }
        if !contains_chars(&names, &pool[d]) {
            let ghost names0 = seqs_view(names@);
            let x = clone_chars(&pool[d]);
            names.push(x);
            proof {
                assert(seqs_view(names@) =~= names0.push(vpool[d as int]));
            }
        }
        d = d + 1;
    }
    proof {
        assert(vpool.subrange(0, d as int) =~= vpool);
    }
    Result::Ok(names)
}

/// One icon file found on disk, with its decoded pixel width.
pub struct IconCandidate {
    pub path: Vec<char>,
    pub width: u32,
}

impl View for IconCandidate {
    type V = (Seq<char>, u32);

    open spec fn view(&self) -> (Seq<char>, u32) {
        (self.path@, self.width)
    }
}

/// The views of a list of candidates.
pub open spec fn cands_view(cs: Seq<IconCandidate>) -> Seq<(Seq<char>, u32)> {
    cs.map_values(|c: IconCandidate| c@)
}

/// The index of the candidate that selection keeps among the first `n`:
/// the first one of the greatest width, or -1 when every width is zero
/// (a width must beat the running maximum, which starts at zero).
pub open spec fn best_upto(cs: Seq<(Seq<char>, u32)>, n: int) -> int
    decreases n,
{
    if n <= 0 {
        -1
    } else {
        let pre = best_upto(cs, n - 1);
        let w: int = if pre < 0 {
            0
        } else {
            cs[pre].1 as int
        };
        if cs[n - 1].1 as int > w {
            n - 1
        } else {
            pre
        }
    }
}

/// What selection keeps is the first candidate of the greatest positive
/// width: everything before it is strictly narrower, nothing anywhere is
/// wider, and only a run whose widths are all zero selects nothing.
pub proof fn lemma_best_props(cs: Seq<(Seq<char>, u32)>, n: int)
    requires
        0 <= n <= cs.len(),
    ensures
        best_upto(cs, n) == -1 || 0 <= best_upto(cs, n) < n,
        best_upto(cs, n) == -1 ==> forall|k: int| 0 <= k < n ==> (#[trigger] cs[k].1) == 0,
        best_upto(cs, n) >= 0 ==> 0 <= best_upto(cs, n) < n && cs[best_upto(cs, n)].1 > 0 && (
        forall|k: int| 0 <= k < n ==> (#[trigger] cs[k].1) <= cs[best_upto(cs, n)].1) && (forall|
            k: int,
        |
            0 <= k < best_upto(cs, n) ==> (#[trigger] cs[k].1) < cs[best_upto(cs, n)].1),
    decreases n,
{
    if n > 0 {
        lemma_best_props(cs, n - 1);
        let pre = best_upto(cs, n - 1);
        let b = best_upto(cs, n);
        if b >= 0 {
            assert forall|k: int| 0 <= k < n implies (#[trigger] cs[k].1) <= cs[b].1 by {
                if k < n - 1 {
                    if pre == -1 {
                        assert(cs[k].1 == 0);
                    } else {
                        assert(cs[k].1 <= cs[pre].1);
                    }
                }
            }
            assert forall|k: int| 0 <= k < b implies (#[trigger] cs[k].1) < cs[b].1 by {
                if b == n - 1 {
                    if pre == -1 {
                        assert(cs[k].1 == 0);
                    } else {
                        assert(cs[k].1 <= cs[pre].1);
                    }
                }
            }
        }
    }
}

/// Selects the path of the best candidate: the first of the greatest
/// width, in the order the caller found them; empty when there is none.
pub fn select_best_icon(cands: &Vec<IconCandidate>) -> (r: Vec<char>)
    ensures
        ({
            let b = best_upto(cands_view(cands@), cands@.len() as int);
            &&& (b == -1 ==> r@ == Seq::<char>::empty())
            &&& (b >= 0 ==> r@ == cands_view(cands@)[b].0)
        }),
{
    let ghost vc = cands_view(cands@);
    let mut max_w: u32 = 0;
    let mut best: Vec<char> = Vec::new();
    let mut i: usize = 0;
    proof {
        assert(best@ =~= Seq::<char>::empty());
    }
    let mut gbi: Ghost<int> = Ghost(-1);
    while i < cands.len()
        invariant
            i <= cands@.len(),
            vc == cands_view(cands@),
            vc.len() == cands@.len(),
            gbi@ == best_upto(vc, i as int),
            gbi@ == -1 || 0 <= gbi@ < i,
            gbi@ == -1 ==> best@ == Seq::<char>::empty() && max_w == 0,
            gbi@ >= 0 ==> 0 <= gbi@ < i && best@ == vc[gbi@].0 && max_w == vc[gbi@].1,
        decreases cands@.len() - i,
    {
        proof {
            assert(vc[i as int] == cands@[i as int]@);
        }
        let ghost gp = gbi@;
        if cands[i].width > max_w {
            max_w = cands[i].width;
            best = clone_chars(&cands[i].path);
            gbi = Ghost(i as int);
        }
        i = i + 1;
        proof {
            assert(best_upto(vc, i as int) == (if vc[i - 1].1 as int > (if gp < 0 {
                0int
            } else {
                vc[gp].1 as int
            }) {
                i - 1
            } else {
                gp
            }));
        }
    }
    best
}

/// One icon file to be replaced, with its decoded dimensions.
pub struct ExistingIcon {
    pub path: Vec<char>,
    pub width: u32,
    pub height: u32,
}

/// One write of the replacement icon: the target path and the exact
/// dimensions the resampled copy must have.
pub struct IconWrite {
    pub path: Vec<char>,
    pub width: u32,
    pub height: u32,
}

/// Plans the in-place icon replacement: one write per existing file, at
/// that file's own dimensions, so every target is validated before any
/// file is touched.
pub fn plan_icon_writes(existing: &Vec<ExistingIcon>) -> (r: Vec<IconWrite>)
    ensures
        r@.len() == existing@.len(),
        forall|k: int|
            0 <= k < existing@.len() ==> (#[trigger] r@[k]).path@ == existing@[k].path@
                && r@[k].width == existing@[k].width && r@[k].height == existing@[k].height,
{
    let mut r: Vec<IconWrite> = Vec::new();
    let mut i: usize = 0;
    while i < existing.len()
        invariant
            i <= existing@.len(),
            r@.len() == i,
            forall|k: int|
                0 <= k < i ==> (#[trigger] r@[k]).path@ == existing@[k].path@ && r@[k].width
                    == existing@[k].width && r@[k].height == existing@[k].height,
        decreases existing@.len() - i,
    {
        let w = IconWrite {
            path: clone_chars(&existing[i].path),
            width: existing[i].width,
            height: existing[i].height,
        };
        r.push(w);
        i = i + 1;
    }
    r
}

} // verus!
